//! Keeping the vector index and the files on disk in step with the memories.

use crate::assoc::{lookup, Assoc};
use crate::manager::MemoryManager;
use crate::select::{copy_flagged, kept};
use crate::store::is_seed;
use crate::text::{blank, is_blank, list_has, starts_with, texts};
use crate::types::{item_views, memory_type_named, ItemView, MemoryItem, MemoryType};
use vstd::prelude::*;
use vstd::string::*;

verus! {

/// How many memories are embedded at once.
pub const REBUILD_CHUNK: usize = 16;

/// Whether the index is to hold the memory: it has a content, and its type is unknown or
/// admits it.
pub open spec fn indexable(m: ItemView, admitted: bool) -> bool {
    !is_blank(m.content) && (memory_type_named(m.memory_type) is None || admitted)
}

/// Whether the index is to hold the memory, where `admitted` says whether its type and
/// importance do.
pub fn is_indexable_entry(e: &MemoryItem, admitted: bool) -> (r: bool)
    ensures
        r == indexable(e@, admitted),
{
    if blank(e.content.as_str()) {
        return false;
    }
    match MemoryType::from_str(e.memory_type.as_str()) {
        Some(_) => admitted,
        None => true,
    }
}

/// The flags of the memories that the index is to hold.
pub open spec fn index_flags(s: Seq<ItemView>, admitted: Seq<bool>) -> Seq<bool> {
    Seq::new(s.len(), |i: int| indexable(s[i], admitted[i]))
}

/// The memories that the index is to hold.
pub open spec fn to_index(s: Seq<ItemView>, admitted: Seq<bool>) -> Seq<ItemView> {
    kept(s, index_flags(s, admitted))
}

/// The flags of the memories that are to be embedded: those of the index that are not in it
/// with the current model.
pub open spec fn embed_flags(s: Seq<ItemView>, admitted: Seq<bool>, already: Seq<Seq<char>>) -> Seq<bool> {
    Seq::new(s.len(), |i: int| indexable(s[i], admitted[i]) && !already.contains(s[i].id))
}

/// Whether the identifier is that of a memory that the index is to hold.
pub open spec fn wanted(s: Seq<ItemView>, admitted: Seq<bool>, id: Seq<char>) -> bool {
    exists|i: int| 0 <= i < s.len() && (#[trigger] s[i]).id == id && indexable(s[i], admitted[i])
}

/// The identifiers of the index that no memory calls for.
pub open spec fn orphaned(
    doc_ids: Seq<Seq<char>>,
    s: Seq<ItemView>,
    admitted: Seq<bool>,
) -> Seq<Seq<char>>
    decreases doc_ids.len(),
{
    if doc_ids.len() == 0 {
        Seq::<Seq<char>>::empty()
    } else {
        let rest = orphaned(doc_ids.drop_last(), s, admitted);
        if wanted(s, admitted, doc_ids.last()) {
            rest
        } else {
            rest.push(doc_ids.last())
        }
    }
}

/// Whether the index has drifted: it lacks more than a fifth of what it is to hold, or
/// holds more than a fifth beyond it.
pub open spec fn drifted(indexable_count: int, vector_count: int) -> bool {
    indexable_count > 0 && (vector_count * 10 < indexable_count * 8 || vector_count * 10
        > indexable_count * 12)
}

/// Whether the index has drifted, so that it is to be built anew.
pub fn has_drifted(indexable_count: usize, vector_count: usize) -> (r: bool)
    ensures
        r == drifted(indexable_count as int, vector_count as int),
{
    let n: u128 = indexable_count as u128;
    let v: u128 = vector_count as u128;
    n > 0 && (v * 10 < n * 8 || v * 10 > n * 12)
}

proof fn lemma_kept_has<T>(s: Seq<T>, flags: Seq<bool>, i: int)
    requires
        0 <= i < s.len(),
        flags[i],
    ensures
        kept(s, flags).contains(s[i]),
    decreases s.len(),
{
    let r = kept(s, flags);
    if i == s.len() - 1 {
        assert(r[r.len() - 1] == s[i]);
    } else {
        lemma_kept_has(s.drop_last(), flags, i);
        let q = kept(s.drop_last(), flags);
        let k = q.index_of(s[i]);
        assert(s.drop_last()[i] == s[i]);
        assert(q[k] == s[i]);
        assert(r[k] == q[k]);
    }
}

proof fn lemma_orphaned(doc_ids: Seq<Seq<char>>, s: Seq<ItemView>, admitted: Seq<bool>, k: int)
    requires
        0 <= k < doc_ids.len(),
        !wanted(s, admitted, doc_ids[k]),
    ensures
        orphaned(doc_ids, s, admitted).contains(doc_ids[k]),
    decreases doc_ids.len(),
{
    let r = orphaned(doc_ids, s, admitted);
    if k == doc_ids.len() - 1 {
        assert(r[r.len() - 1] == doc_ids[k]);
    } else {
        lemma_orphaned(doc_ids.drop_last(), s, admitted, k);
        let q = orphaned(doc_ids.drop_last(), s, admitted);
        assert(doc_ids.drop_last()[k] == doc_ids[k]);
        let j = q.index_of(doc_ids[k]);
        assert(r[j] == q[j]);
    }
}

proof fn lemma_orphan_unwanted(doc_ids: Seq<Seq<char>>, s: Seq<ItemView>, admitted: Seq<bool>, id: Seq<char>)
    requires
        orphaned(doc_ids, s, admitted).contains(id),
    ensures
        !wanted(s, admitted, id),
    decreases doc_ids.len(),
{
    if doc_ids.len() > 0 {
        let r = orphaned(doc_ids, s, admitted);
        let q = orphaned(doc_ids.drop_last(), s, admitted);
        let j = r.index_of(id);
        if j < q.len() {
            assert(q[j] == r[j]);
            lemma_orphan_unwanted(doc_ids.drop_last(), s, admitted, id);
        }
    }
}

/// Building anew brings the index in step: each memory that it is to hold is in it with the
/// current model or is embedded, and what is left of its identifiers after the orphans are
/// dropped is called for by a memory; no memory that is called for is dropped.
pub proof fn rebuild_brings_in_step(
    s: Seq<ItemView>,
    admitted: Seq<bool>,
    already: Seq<Seq<char>>,
    doc_ids: Seq<Seq<char>>,
    i: int,
    k: int,
)
    requires
        admitted.len() == s.len(),
        0 <= i < s.len(),
        0 <= k < doc_ids.len(),
    ensures
        indexable(s[i], admitted[i]) ==> already.contains(s[i].id) || kept(
            s,
            embed_flags(s, admitted, already),
        ).contains(s[i]),
        orphaned(doc_ids, s, admitted).contains(doc_ids[k]) == !wanted(s, admitted, doc_ids[k]),
        indexable(s[i], admitted[i]) ==> !orphaned(doc_ids, s, admitted).contains(s[i].id),
{
    if indexable(s[i], admitted[i]) {
        if !already.contains(s[i].id) {
            lemma_kept_has(s, embed_flags(s, admitted, already), i);
        }
        assert(wanted(s, admitted, s[i].id));
        if orphaned(doc_ids, s, admitted).contains(s[i].id) {
            lemma_orphan_unwanted(doc_ids, s, admitted, s[i].id);
        }
    }
    if !wanted(s, admitted, doc_ids[k]) {
        lemma_orphaned(doc_ids, s, admitted, k);
    } else if orphaned(doc_ids, s, admitted).contains(doc_ids[k]) {
        lemma_orphan_unwanted(doc_ids, s, admitted, doc_ids[k]);
    }
}

/// The memories of a batch for which an embedding was made.
pub fn embedded_only(batch: &[MemoryItem], made: &Vec<bool>) -> (out: Vec<MemoryItem>)
    requires
        batch@.len() == made@.len(),
    ensures
        item_views(out@) == kept(item_views(batch@), made@),
{
    copy_flagged(batch, made)
}

// ---------------------------------------------------------------------------
// Files
// ---------------------------------------------------------------------------

/// The fingerprint of the last memory with that identifier.
pub open spec fn print_of(s: Seq<ItemView>, prints: Seq<u64>, id: Seq<char>) -> Option<u64> {
    match crate::strategy::last_with_id(s, id) {
        Some(i) => Some(prints[i]),
        None => None,
    }
}

/// The flags of the memories that are to be written: those whose fingerprint is not the one
/// on disk.
pub open spec fn write_flags(
    s: Seq<ItemView>,
    prints: Seq<u64>,
    persisted: Seq<(Seq<char>, u64)>,
) -> Seq<bool> {
    Seq::new(s.len(), |i: int| lookup(persisted, s[i].id) != print_of(s, prints, s[i].id))
}

/// The identifiers on disk that no memory has.
pub open spec fn gone(s: Seq<ItemView>, persisted: Seq<(Seq<char>, u64)>) -> Seq<Seq<char>>
    decreases persisted.len(),
{
    if persisted.len() == 0 {
        Seq::<Seq<char>>::empty()
    } else {
        let rest = gone(s, persisted.drop_last());
        if crate::strategy::last_with_id(s, persisted.last().0) is Some {
            rest
        } else {
            rest.push(persisted.last().0)
        }
    }
}

/// What is to be written to disk, and what is to be dropped there.
pub struct SavePlan {
    pub upserts: Vec<MemoryItem>,
    pub deletes: Vec<String>,
}

/// What is to be written to disk, where `prints` are the fingerprints of the memories and
/// `persisted` those on disk.
pub fn plan_save(entries: &[MemoryItem], prints: &Vec<u64>, persisted: &Assoc<u64>) -> (r: SavePlan)
    requires
        prints@.len() == entries@.len(),
    ensures
        item_views(r.upserts@) == kept(
            item_views(entries@),
            write_flags(item_views(entries@), prints@, persisted@),
        ),
        texts(r.deletes@) == gone(item_views(entries@), persisted@),
{
    let ghost s = item_views(entries@);
    let mut flags: Vec<bool> = Vec::new();
    let mut i: usize = 0;
    while i < entries.len()
        invariant
            i <= entries@.len(),
            s == item_views(entries@),
            prints@.len() == entries@.len(),
            flags@.len() == i,
            forall|k: int| 0 <= k < i ==> #[trigger] flags@[k] == write_flags(s, prints@, persisted@)[k],
        decreases entries@.len() - i,
    {
        let id = entries[i].id.as_str();
        assert(s[i as int] == entries@[i as int]@);
        let now: Option<u64> = match crate::strategy::position_by_id(entries, id) {
            Some(k) => Some(prints[k]),
            None => None,
        };
        let on_disk: Option<u64> = match persisted.get(id) {
            Some(p) => Some(*p),
            None => None,
        };
        let differs = match (on_disk, now) {
            (Some(a), Some(b)) => a != b,
            (None, None) => false,
            _ => true,
        };
        flags.push(differs);
        i += 1;
    }
    assert(flags@ =~= write_flags(s, prints@, persisted@));
    let upserts = copy_flagged(entries, &flags);
    let mut deletes: Vec<String> = Vec::new();
    let mut j: usize = 0;
    assert(texts(deletes@) =~= gone(s, persisted@.take(0)));
    while j < persisted.len()
        invariant
            j <= persisted@.len(),
            s == item_views(entries@),
            texts(deletes@) == gone(s, persisted@.take(j as int)),
        decreases persisted@.len() - j,
    {
        proof {
            assert(persisted@.take(j + 1).drop_last() =~= persisted@.take(j as int));
            assert(persisted@.take(j + 1).last() == persisted@[j as int]);
        }
        let id = persisted.key_at(j);
        if crate::strategy::position_by_id(entries, id).is_none() {
            let ghost prev = texts(deletes@);
            deletes.push(id.to_owned());
            assert(texts(deletes@) =~= prev.push(id@));
        }
        j += 1;
    }
    assert(persisted@.take(j as int) =~= persisted@);
    SavePlan { upserts, deletes }
}

/// Saving what is already on disk writes and drops nothing.
pub proof fn saving_twice_writes_nothing(
    s: Seq<ItemView>,
    prints: Seq<u64>,
    persisted: Seq<(Seq<char>, u64)>,
)
    requires
        prints.len() == s.len(),
        forall|i: int|
            0 <= i < s.len() ==> lookup(persisted, (#[trigger] s[i]).id) == print_of(
                s,
                prints,
                s[i].id,
            ),
        forall|k: int|
            0 <= k < persisted.len() ==> crate::strategy::last_with_id(
                s,
                (#[trigger] persisted[k]).0,
            ) is Some,
    ensures
        kept(s, write_flags(s, prints, persisted)).len() == 0,
        gone(s, persisted).len() == 0,
{
    lemma_none_kept(s, write_flags(s, prints, persisted));
    lemma_none_gone(s, persisted);
}

proof fn lemma_none_kept<T>(s: Seq<T>, flags: Seq<bool>)
    requires
        forall|i: int| 0 <= i < s.len() ==> !(#[trigger] flags[i]),
    ensures
        kept(s, flags).len() == 0,
    decreases s.len(),
{
    if s.len() > 0 {
        assert(!flags[s.len() - 1]);
        lemma_none_kept(s.drop_last(), flags);
    }
}

proof fn lemma_none_gone(s: Seq<ItemView>, persisted: Seq<(Seq<char>, u64)>)
    requires
        forall|k: int|
            0 <= k < persisted.len() ==> crate::strategy::last_with_id(
                s,
                (#[trigger] persisted[k]).0,
            ) is Some,
    ensures
        gone(s, persisted).len() == 0,
    decreases persisted.len(),
{
    if persisted.len() > 0 {
        assert(crate::strategy::last_with_id(s, persisted[persisted.len() - 1].0) is Some);
        assert forall|k: int| 0 <= k < persisted.drop_last().len() implies crate::strategy::last_with_id(
            s,
            (#[trigger] persisted.drop_last()[k]).0,
        ) is Some by {
            assert(persisted.drop_last()[k] == persisted[k]);
        }
        lemma_none_gone(s, persisted.drop_last());
    }
}

// ---------------------------------------------------------------------------
// The manager
// ---------------------------------------------------------------------------

/// The flags of the seeds that the index lacks.
pub open spec fn missing_seed_flags(s: Seq<ItemView>, doc_ids: Seq<Seq<char>>) -> Seq<bool> {
    Seq::new(s.len(), |i: int| is_seed(s[i]) && !doc_ids.contains(s[i].id))
}

/// How many seeds the index still lacks after a try to embed them: those without an
/// embedding, and all of them where they could not be written.
pub fn seeds_still_missing(made: &Vec<bool>, written: bool) -> (n: usize)
    ensures
        n == (if written {
            (made@.len() - crate::select::count_set(made@)) as int
        } else {
            made@.len() as int
        }),
{
    proof {
        crate::select::count_bound(made@);
    }
    let set: usize = crate::select::count_flags(made);
    if written {
        made.len() - set
    } else {
        made.len()
    }
}

impl MemoryManager {
    /// How many memories the index is to hold, where `admitted` says of each whether its
    /// type and importance admit it.
    pub fn count_indexable(&self, admitted: &Vec<bool>) -> (n: usize)
        requires
            admitted@.len() == self@.entries.len(),
        ensures
            n == to_index(self@.entries, admitted@).len(),
    {
        let ghost s = self@.entries;
        let ghost flags = index_flags(s, admitted@);
        let mut n: usize = 0;
        let mut i: usize = 0;
        assert(kept(s.take(0), flags) =~= Seq::<ItemView>::empty());
        while i < self.entries.len()
            invariant
                i <= self.entries@.len(),
                n <= i,
                s == self@.entries,
                flags == index_flags(s, admitted@),
                admitted@.len() == s.len(),
                n == kept(s.take(i as int), flags).len(),
            decreases self.entries@.len() - i,
        {
            proof {
                assert(s.take(i + 1).drop_last() =~= s.take(i as int));
                assert(s[i as int] == self.entries@[i as int]@);
            }
            if is_indexable_entry(&self.entries[i], admitted[i]) {
                n += 1;
            }
            i += 1;
        }
        assert(s.take(i as int) =~= s);
        n
    }

    /// The memories that are to be embedded: those of the index that are not in it with the
    /// current model. They are embedded in chunks.
    pub fn rebuild_all_embeddings(&self, admitted: &Vec<bool>, already: &Vec<String>) -> (out: Vec<
        MemoryItem,
    >)
        requires
            admitted@.len() == self@.entries.len(),
        ensures
            item_views(out@) == kept(
                self@.entries,
                embed_flags(self@.entries, admitted@, texts(already@)),
            ),
    {
        let ghost s = self@.entries;
        let mut flags: Vec<bool> = Vec::new();
        let mut i: usize = 0;
        while i < self.entries.len()
            invariant
                i <= self.entries@.len(),
                s == self@.entries,
                admitted@.len() == s.len(),
                flags@.len() == i,
                forall|k: int|
                    0 <= k < i ==> #[trigger] flags@[k] == embed_flags(
                        s,
                        admitted@,
                        texts(already@),
                    )[k],
            decreases self.entries@.len() - i,
        {
            assert(s[i as int] == self.entries@[i as int]@);
            flags.push(
                is_indexable_entry(&self.entries[i], admitted[i]) && !list_has(
                    already,
                    self.entries[i].id.as_str(),
                ),
            );
            i += 1;
        }
        assert(flags@ =~= embed_flags(s, admitted@, texts(already@)));
        copy_flagged(self.entries.as_slice(), &flags)
    }

    /// The identifiers of the index that no memory calls for; they are to be dropped.
    pub fn orphan_vectors(&self, admitted: &Vec<bool>, doc_ids: &Vec<String>) -> (out: Vec<String>)
        requires
            admitted@.len() == self@.entries.len(),
        ensures
            texts(out@) == orphaned(texts(doc_ids@), self@.entries, admitted@),
    {
        let ghost s = self@.entries;
        let ghost all = texts(doc_ids@);
        let mut out: Vec<String> = Vec::new();
        let mut i: usize = 0;
        assert(texts(out@) =~= orphaned(all.take(0), s, admitted@));
        while i < doc_ids.len()
            invariant
                i <= doc_ids@.len(),
                s == self@.entries,
                all == texts(doc_ids@),
                admitted@.len() == s.len(),
                texts(out@) == orphaned(all.take(i as int), s, admitted@),
            decreases doc_ids@.len() - i,
        {
            proof {
                assert(all.take(i + 1).drop_last() =~= all.take(i as int));
                assert(all.take(i + 1).last() == doc_ids@[i as int]@);
            }
            if !self.is_wanted(admitted, doc_ids[i].as_str()) {
                let ghost prev = texts(out@);
                out.push(doc_ids[i].clone());
                assert(texts(out@) =~= prev.push(doc_ids@[i as int]@));
            }
            i += 1;
        }
        assert(all.take(i as int) =~= all);
        out
    }

    fn is_wanted(&self, admitted: &Vec<bool>, id: &str) -> (r: bool)
        requires
            admitted@.len() == self@.entries.len(),
        ensures
            r == wanted(self@.entries, admitted@, id@),
    {
        let ghost s = self@.entries;
        let mut i: usize = 0;
        while i < self.entries.len()
            invariant
                i <= self.entries@.len(),
                s == self@.entries,
                admitted@.len() == s.len(),
                forall|k: int|
                    0 <= k < i ==> !((#[trigger] s[k]).id == id@ && indexable(s[k], admitted@[k])),
            decreases self.entries@.len() - i,
        {
            assert(s[i as int] == self.entries@[i as int]@);
            if crate::text::same(self.entries[i].id.as_str(), id) && is_indexable_entry(
                &self.entries[i],
                admitted[i],
            ) {
                return true;
            }
            i += 1;
        }
        false
    }

    /// Whether the index has drifted, so that it is to be built anew.
    pub fn check_index_drift_and_rebuild(&self, admitted: &Vec<bool>, vector_count: usize) -> (r: bool)
        requires
            admitted@.len() == self@.entries.len(),
        ensures
            r == drifted(to_index(self@.entries, admitted@).len() as int, vector_count as int),
    {
        has_drifted(self.count_indexable(admitted), vector_count)
    }

    /// The seeds that the index lacks.
    pub fn ensure_seed_vectors(&self, doc_ids: &Vec<String>) -> (out: Vec<MemoryItem>)
        ensures
            item_views(out@) == kept(
                self@.entries,
                missing_seed_flags(self@.entries, texts(doc_ids@)),
            ),
    {
        let ghost s = self@.entries;
        let mut flags: Vec<bool> = Vec::new();
        let mut i: usize = 0;
        while i < self.entries.len()
            invariant
                i <= self.entries@.len(),
                s == self@.entries,
                flags@.len() == i,
                forall|k: int|
                    0 <= k < i ==> #[trigger] flags@[k] == missing_seed_flags(s, texts(doc_ids@))[k],
            decreases self.entries@.len() - i,
        {
            assert(s[i as int] == self.entries@[i as int]@);
            flags.push(
                starts_with(self.entries[i].id.as_str(), "seed_") && !list_has(
                    doc_ids,
                    self.entries[i].id.as_str(),
                ),
            );
            i += 1;
        }
        assert(flags@ =~= missing_seed_flags(s, texts(doc_ids@)));
        copy_flagged(self.entries.as_slice(), &flags)
    }

    /// What is to be written to disk.
    pub fn save_to_disk(&self, prints: &Vec<u64>, persisted: &Assoc<u64>) -> (r: SavePlan)
        requires
            prints@.len() == self@.entries.len(),
        ensures
            item_views(r.upserts@) == kept(
                self@.entries,
                write_flags(self@.entries, prints@, persisted@),
            ),
            texts(r.deletes@) == gone(self@.entries, persisted@),
    {
        plan_save(self.entries.as_slice(), prints, persisted)
    }
}

} // verus!
