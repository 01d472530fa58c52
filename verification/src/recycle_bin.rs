//! Deleted memories, kept for a week.

use crate::rank::{order_desc, order_of, positions, ranked};
use crate::select::{kept, kept_is_filter, kept_map, take_flagged};
use crate::text::same;
use crate::types::{ItemView, MemoryItem};
use vstd::prelude::*;
use vstd::string::*;

verus! {

/// How long a deleted memory is kept.
pub const RETENTION_MILLIS: i64 = 604_800_000;

/// How many deleted memories are kept.
pub const MAX_ENTRIES: usize = 500;

/// A deleted memory.
#[derive(Debug)]
pub struct RecycleEntry {
    pub item: MemoryItem,
    pub deleted_at: i64,
    pub reason: String,
    pub original_index_hint: Option<usize>,
}

/// What a deleted memory is.
pub struct RecycleView {
    pub item: ItemView,
    pub deleted_at: i64,
    pub reason: Seq<char>,
    pub original_index_hint: Option<usize>,
}

impl View for RecycleEntry {
    type V = RecycleView;

    open spec fn view(&self) -> RecycleView {
        RecycleView {
            item: self.item@,
            deleted_at: self.deleted_at,
            reason: self.reason@,
            original_index_hint: self.original_index_hint,
        }
    }
}

impl Clone for RecycleEntry {
    fn clone(&self) -> (r: RecycleEntry)
        ensures
            r@ == self@,
    {
        RecycleEntry {
            item: self.item.clone(),
            deleted_at: self.deleted_at,
            reason: self.reason.clone(),
            original_index_hint: self.original_index_hint,
        }
    }
}

/// What the bin keeps on disk.
#[derive(Debug)]
pub struct RecycleBinData {
    pub entries: Vec<RecycleEntry>,
}

/// The recycle bin.
pub struct RecycleBin {
    entries: Vec<RecycleEntry>,
    dirty: bool,
}

/// What the entries of a list are.
pub open spec fn recycled(v: Seq<RecycleEntry>) -> Seq<RecycleView> {
    v.map_values(|e: RecycleEntry| e@)
}

/// The times of deletion.
pub open spec fn deletion_times(s: Seq<RecycleView>) -> Seq<i128> {
    s.map_values(|e: RecycleView| e.deleted_at as i128)
}

/// The newest entries within the capacity, after `e` was added.
pub open spec fn pushed(s: Seq<RecycleView>, e: RecycleView) -> Seq<RecycleView> {
    let t = s.push(e);
    if t.len() > MAX_ENTRIES {
        t.skip(t.len() - MAX_ENTRIES)
    } else {
        t
    }
}

/// The position of the first entry for that memory, or the end.
pub open spec fn first_for(s: Seq<RecycleView>, id: Seq<char>) -> int
    decreases s.len(),
{
    if s.len() == 0 || s[0].item.id == id {
        0
    } else {
        1 + first_for(s.skip(1), id)
    }
}

/// Whether the entry is still kept at `now`.
pub open spec fn fresh(e: RecycleView, now: i64) -> bool {
    now - e.deleted_at < RETENTION_MILLIS
}

/// Whether the content of the `i`-th entry stands in an earlier one.
pub open spec fn repeats(s: Seq<RecycleView>, i: int) -> bool {
    exists|j: int| 0 <= j < i && (#[trigger] s[j]).item.content == s[i].item.content
}

/// The entries without those that repeat the content of an earlier one.
pub open spec fn without_repeats(s: Seq<RecycleView>) -> Seq<RecycleView> {
    kept(s, Seq::new(s.len(), |i: int| !repeats(s, i)))
}

proof fn lemma_first_for(s: Seq<RecycleView>, id: Seq<char>)
    ensures
        0 <= first_for(s, id) <= s.len(),
        forall|j: int| 0 <= j < first_for(s, id) ==> (#[trigger] s[j]).item.id != id,
        first_for(s, id) < s.len() ==> s[first_for(s, id)].item.id == id,
    decreases s.len(),
{
    if s.len() > 0 && s[0].item.id != id {
        lemma_first_for(s.skip(1), id);
        let i = first_for(s, id);
        assert forall|j: int| 0 <= j < i implies (#[trigger] s[j]).item.id != id by {
            if j > 0 {
                assert(s.skip(1)[j - 1] == s[j]);
            }
        }
        if i < s.len() {
            assert(s.skip(1)[i - 1] == s[i]);
        }
    }
}

impl RecycleBin {
    /// The entries, oldest first unless they were loaded.
    pub closed spec fn view(&self) -> Seq<RecycleView> {
        recycled(self.entries@)
    }

    /// Whether something changed since the last save.
    pub closed spec fn changed(&self) -> bool {
        self.dirty
    }

    /// A bin with the loaded entries, latest deletion first.
    pub fn new(data: RecycleBinData) -> (r: RecycleBin)
        ensures
            r@ == ranked(
                recycled(data.entries@),
                deletion_times(recycled(data.entries@)),
                data.entries@.len() as int,
            ),
            !r.changed(),
    {
        let entries = data.entries;
        let ghost all = recycled(entries@);
        let mut keys: Vec<i128> = Vec::new();
        let mut i: usize = 0;
        while i < entries.len()
            invariant
                i <= entries@.len(),
                all == recycled(entries@),
                keys@ == deletion_times(all).take(i as int),
            decreases entries@.len() - i,
        {
            keys.push(entries[i].deleted_at as i128);
            i += 1;
            assert(all[i - 1] == entries@[i - 1]@);
            assert(deletion_times(all).take(i as int) =~= deletion_times(all).take(i - 1).push(
                deletion_times(all)[i - 1],
            ));
        }
        assert(deletion_times(all).take(i as int) =~= deletion_times(all));
        let p = order_desc(&keys);
        let ghost want = ranked(all, deletion_times(all), all.len() as int);
        let mut out: Vec<RecycleEntry> = Vec::new();
        let mut k: usize = 0;
        assert(recycled(out@) =~= want.take(0));
        while k < p.len()
            invariant
                k <= p@.len(),
                p@.len() == entries@.len(),
                all == recycled(entries@),
                want == ranked(all, deletion_times(all), all.len() as int),
                want.len() == p@.len(),
                positions(p@) == order_of(deletion_times(all)),
                forall|j: int| 0 <= j < p@.len() ==> (#[trigger] p@[j]) < entries@.len(),
                recycled(out@) == want.take(k as int),
            decreases p@.len() - k,
        {
            let at: usize = p[k];
            let ghost prev = recycled(out@);
            out.push(entries[at].clone());
            assert(positions(p@)[k as int] == at as int);
            assert(all[at as int] == entries@[at as int]@);
            assert(recycled(out@) =~= prev.push(want[k as int]));
            k += 1;
            assert(want.take(k as int) =~= want.take(k - 1).push(want[k - 1]));
        }
        assert(want.take(k as int) =~= want);
        RecycleBin { entries: out, dirty: false }
    }

    /// Whether something is to be saved.
    pub fn needs_save(&self) -> (r: bool)
        ensures
            r == self.changed(),
    {
        self.dirty
    }

    /// Notes that the entries were saved.
    pub fn saved(&mut self)
        ensures
            final(self)@ == old(self)@,
            !final(self).changed(),
    {
        self.dirty = false;
    }

    /// Adds a memory that was deleted at `now`.
    pub fn push(&mut self, item: MemoryItem, reason: &str, now: i64)
        ensures
            final(self)@ == pushed(
                old(self)@,
                RecycleView {
                    item: item@,
                    deleted_at: now,
                    reason: reason@,
                    original_index_hint: None,
                },
            ),
            final(self).changed(),
    {
        let ghost was = self@;
        let e = RecycleEntry {
            item,
            deleted_at: now,
            reason: reason.to_owned(),
            original_index_hint: None,
        };
        let ghost added = e@;
        self.entries.push(e);
        self.dirty = true;
        assert(self@ =~= was.push(added));
        let ghost full = self@;
        while self.entries.len() > MAX_ENTRIES
            invariant
                self.dirty,
                self.entries@.len() <= full.len(),
                self@ == full.skip(full.len() - self.entries@.len()),
                full.len() > MAX_ENTRIES ==> self.entries@.len() >= MAX_ENTRIES,
                full.len() <= MAX_ENTRIES ==> self@ == full,
            decreases self.entries@.len(),
        {
            let ghost prev = self@;
            self.entries.remove(0);
            assert(self@ =~= prev.skip(1));
            assert(self@ =~= full.skip(full.len() - self.entries@.len()));
        }
    }

    fn position(&self, id: &str) -> (r: usize)
        ensures
            r == first_for(self@, id@),
            r <= self.entries@.len(),
    {
        let mut i: usize = 0;
        let ghost all = self@;
        while i < self.entries.len()
            invariant
                i <= self.entries@.len(),
                all == self@,
                forall|j: int| 0 <= j < i ==> (#[trigger] all[j]).item.id != id@,
            decreases self.entries@.len() - i,
        {
            assert(all[i as int] == self.entries@[i as int]@);
            if same(self.entries[i].item.id.as_str(), id) {
                proof {
                    lemma_first_for(all, id@);
                    let w = first_for(all, id@);
                    if w < i {
                        assert(all[w].item.id != id@);
                    } else if i < w {
                        assert(all[i as int].item.id != id@);
                    }
                }
                return i;
            }
            i += 1;
        }
        proof {
            lemma_first_for(all, id@);
            let w = first_for(all, id@);
            if w < all.len() {
                assert(all[w].item.id != id@);
            }
        }
        i
    }

    /// Takes the first entry for that memory out of the bin.
    pub fn restore(&mut self, id: &str) -> (r: Option<MemoryItem>)
        ensures
            match r {
                Some(m) => first_for(old(self)@, id@) < old(self)@.len() && m@ == old(
                    self,
                )@[first_for(old(self)@, id@)].item && final(self)@ == old(self)@.remove(
                    first_for(old(self)@, id@),
                ) && final(self).changed(),
                None => first_for(old(self)@, id@) == old(self)@.len() && final(self)@ == old(self)@
                    && final(self).changed() == old(self).changed(),
            },
    {
        let i: usize = self.position(id);
        if i < self.entries.len() {
            let ghost was = self@;
            let e = self.entries.remove(i);
            self.dirty = true;
            assert(self@ =~= was.remove(i as int));
            assert(e@ == was[i as int]);
            Some(e.item)
        } else {
            None
        }
    }

    /// Drops the first entry for that memory.
    pub fn purge(&mut self, id: &str) -> (r: bool)
        ensures
            r == (first_for(old(self)@, id@) < old(self)@.len()),
            final(self)@ == (if r {
                old(self)@.remove(first_for(old(self)@, id@))
            } else {
                old(self)@
            }),
            final(self).changed() == (r || old(self).changed()),
    {
        match self.restore(id) {
            Some(_) => true,
            None => {
                proof {
                    lemma_first_for(self@, id@);
                }
                false
            },
        }
    }

    /// Drops the entries that were kept long enough, and says how many.
    pub fn purge_expired(&mut self, now: i64) -> (n: usize)
        ensures
            final(self)@ == old(self)@.filter(|e: RecycleView| fresh(e, now)),
            n == old(self)@.len() - final(self)@.len(),
            final(self).changed() == (n > 0 || old(self).changed()),
    {
        let ghost was = self@;
        let mut flags: Vec<bool> = Vec::new();
        let mut i: usize = 0;
        while i < self.entries.len()
            invariant
                i <= self.entries@.len(),
                was == self@,
                flags@.len() == i,
                self.dirty == old(self).dirty,
                forall|k: int| 0 <= k < i ==> #[trigger] flags@[k] == fresh(was[k], now),
            decreases self.entries@.len() - i,
        {
            assert(was[i as int] == self.entries@[i as int]@);
            let age: i128 = now as i128 - self.entries[i].deleted_at as i128;
            flags.push(age < RETENTION_MILLIS as i128);
            i += 1;
        }
        self.keep(&flags, Ghost(|e: RecycleView| fresh(e, now)))
    }

    /// Keeps the entries whose flag is set, and says how many were dropped.
    fn keep(&mut self, flags: &Vec<bool>, Ghost(test): Ghost<spec_fn(RecycleView) -> bool>) -> (n:
        usize)
        requires
            flags@.len() == old(self).entries@.len(),
        ensures
            final(self)@ == kept(old(self)@, flags@),
            (forall|k: int| 0 <= k < flags@.len() ==> #[trigger] flags@[k] == test(old(self)@[k]))
                ==> final(self)@ == old(self)@.filter(test),
            n == old(self)@.len() - final(self)@.len(),
            final(self).dirty == (n > 0 || old(self).dirty),
    {
        let ghost was = self@;
        let before: usize = self.entries.len();
        let mut mine: Vec<RecycleEntry> = Vec::new();
        std::mem::swap(&mut mine, &mut self.entries);
        let ghost raw = mine@;
        self.entries = take_flagged(mine, flags);
        proof {
            kept_map(raw, flags@, |e: RecycleEntry| e@);
            assert(self@ == kept(was, flags@));
            if forall|k: int| 0 <= k < flags@.len() ==> #[trigger] flags@[k] == test(was[k]) {
                kept_is_filter(was, flags@, test);
            }
            lemma_kept_shorter(was, flags@);
        }
        let n: usize = before - self.entries.len();
        if n > 0 {
            self.dirty = true;
        }
        n
    }

    /// Drops everything, and says how many entries there were.
    pub fn purge_all(&mut self) -> (n: usize)
        ensures
            n == old(self)@.len(),
            final(self)@ == Seq::<RecycleView>::empty(),
            final(self).changed(),
    {
        let n: usize = self.entries.len();
        self.entries.clear();
        self.dirty = true;
        assert(self@ =~= Seq::<RecycleView>::empty());
        n
    }

    /// Copies of the entries.
    pub fn list(&self) -> (r: Vec<RecycleEntry>)
        ensures
            recycled(r@) == self@,
    {
        let mut out: Vec<RecycleEntry> = Vec::new();
        let mut i: usize = 0;
        while i < self.entries.len()
            invariant
                i <= self.entries@.len(),
                out@.len() == i,
                forall|j: int| 0 <= j < i ==> (#[trigger] out@[j])@ == self.entries@[j]@,
            decreases self.entries@.len() - i,
        {
            out.push(self.entries[i].clone());
            i += 1;
        }
        assert(recycled(out@) =~= self@);
        out
    }

    /// A copy of the first entry for that memory.
    pub fn get(&self, id: &str) -> (r: Option<RecycleEntry>)
        ensures
            match r {
                Some(e) => first_for(self@, id@) < self@.len() && e@ == self@[first_for(
                    self@,
                    id@,
                )],
                None => first_for(self@, id@) == self@.len(),
            },
    {
        let i: usize = self.position(id);
        if i < self.entries.len() {
            Some(self.entries[i].clone())
        } else {
            None
        }
    }

    pub fn count(&self) -> (n: usize)
        ensures
            n == self@.len(),
    {
        self.entries.len()
    }

    /// Whether there is an entry for that memory.
    pub fn has(&self, id: &str) -> (r: bool)
        ensures
            r == exists|i: int| 0 <= i < self@.len() && (#[trigger] self@[i]).item.id == id@,
    {
        let i: usize = self.position(id);
        proof {
            lemma_first_for(self@, id@);
        }
        i < self.entries.len()
    }

    /// Drops the entries that repeat the content of an earlier one, and says how
    /// many.
    pub fn dedupe_by_content(&mut self) -> (n: usize)
        ensures
            final(self)@ == without_repeats(old(self)@),
            n == old(self)@.len() - final(self)@.len(),
            final(self).changed() == (n > 0 || old(self).changed()),
    {
        let ghost was = self@;
        let mut flags: Vec<bool> = Vec::new();
        let mut i: usize = 0;
        while i < self.entries.len()
            invariant
                i <= self.entries@.len(),
                was == self@,
                self.dirty == old(self).dirty,
                flags@.len() == i,
                forall|k: int| 0 <= k < i ==> #[trigger] flags@[k] == !repeats(was, k),
            decreases self.entries@.len() - i,
        {
            let mut seen: bool = false;
            let mut j: usize = 0;
            assert(was[i as int] == self.entries@[i as int]@);
            while j < i
                invariant
                    j <= i < self.entries@.len(),
                    was == self@,
                    was[i as int] == self.entries@[i as int]@,
                    seen == exists|k: int|
                        0 <= k < j && (#[trigger] was[k]).item.content == was[i as int].item.content,
                decreases i - j,
            {
                assert(was[j as int] == self.entries@[j as int]@);
                if same(
                    self.entries[j].item.content.as_str(),
                    self.entries[i].item.content.as_str(),
                ) {
                    seen = true;
                }
                j += 1;
            }
            flags.push(!seen);
            i += 1;
        }
        proof {
            let want = Seq::new(was.len(), |i: int| !repeats(was, i));
            assert(flags@ =~= want);
        }
        self.keep(&flags, Ghost(|e: RecycleView| true))
    }
}

proof fn lemma_kept_shorter<T>(s: Seq<T>, flags: Seq<bool>)
    ensures
        kept(s, flags).len() <= s.len(),
    decreases s.len(),
{
    if s.len() > 0 {
        lemma_kept_shorter(s.drop_last(), flags);
    }
}

/// A memory that was pushed into a bin with room, and that has no other entry
/// there, comes out as it went in, and the bin is as it was.
pub proof fn push_then_restore(s: Seq<RecycleView>, e: RecycleView)
    requires
        s.len() < MAX_ENTRIES,
        forall|i: int| 0 <= i < s.len() ==> (#[trigger] s[i]).item.id != e.item.id,
    ensures
        first_for(pushed(s, e), e.item.id) == s.len(),
        pushed(s, e)[s.len() as int] == e,
        pushed(s, e).remove(s.len() as int) == s,
{
    let t = pushed(s, e);
    lemma_first_for(t, e.item.id);
    let w = first_for(t, e.item.id);
    if w < s.len() {
        assert(t[w] == s[w]);
    } else if w > s.len() {
        assert(t[s.len() as int].item.id != e.item.id);
    }
    assert(t.remove(s.len() as int) =~= s);
}

/// The bin never holds more than its capacity.
pub proof fn bin_stays_bounded(s: Seq<RecycleView>, e: RecycleView)
    ensures
        pushed(s, e).len() <= MAX_ENTRIES,
        pushed(s, e).last() == e,
{
}

} // verus!
