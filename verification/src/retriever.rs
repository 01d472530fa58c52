//! Fusing the arms of a search, ranking what they found, and rounding it off.
//!
//! Fused scores are kept in millionths of millionths, all other scores in
//! millionths.

use crate::assoc::{lookup, lookup_after_put, Assoc};
use crate::ordered::{add_id, lemma_with_id_len, lemma_with_id_members, with_id};
use crate::rank::{order_desc, order_of, order_sorts, positions, ranked};
use crate::relational_recall::{hit_views, HitView, RelationalHit};
use crate::select::{kept, kept_is_filter, kept_map, take_flagged};
use crate::strategy::{floor_div, last_with_id, position_by_id};
use crate::text::{chars_of, contains_chars, has_sub, join, join_strings, list_has, lower, lowercase, opt_text,
    same, texts};
use crate::tokens::{distinct_of, distinct_words, jaccard, jaccard_similarity, overlap, overlap_of, words_of,
    words_of_all, words_of_text};
use crate::types::{count_at, hook_views, item_views, layer_of, list_at, semantic, text_at, HookView, ItemView,
    Metadata, MemoryItem, MetaValue, MetaView, SemanticType, ONE};
use std::collections::hash_map::DefaultHasher;
use std::hash::Hasher;
use vstd::prelude::*;
use vstd::std_specs::hash::DefaultHasherAdditionalSpecFns;
use vstd::string::*;
use vstd::utf8::encode_utf8;

verus! {

/// One, as a fused score.
pub const FUSED_ONE: i64 = 1_000_000_000_000;

/// What is added to every rank before it is inverted.
pub const RRF_K: i128 = 60;

/// Factor for a memory that holds a name of the query.
pub const ENTITY_BOOST: i128 = 3;

/// The layer of cognition that a result belongs to.
#[derive(Debug, Clone, Copy, PartialEq, Eq, Hash, Structural)]
pub enum RetrievalResultType {
    /// Facts and preferences of the user, events, knowledge.
    Fact,
    /// Part of an episode.
    Episode,
    Memory,
    Belief,
}

/// The layer of a memory of that type.
pub open spec fn layer_for(memory_type: Seq<char>, in_episode: bool) -> RetrievalResultType {
    if in_episode {
        RetrievalResultType::Episode
    } else if memory_type == "user"@ || memory_type == "preference"@ || memory_type == "identity"@
        || memory_type == "important_event"@ || memory_type == "knowledge"@ {
        RetrievalResultType::Fact
    } else {
        RetrievalResultType::Memory
    }
}

impl RetrievalResultType {
    /// The name of the layer.
    pub open spec fn name(self) -> Seq<char> {
        match self {
            RetrievalResultType::Fact => "fact"@,
            RetrievalResultType::Episode => "episode"@,
            RetrievalResultType::Memory => "memory"@,
            RetrievalResultType::Belief => "belief"@,
        }
    }

    pub fn as_str(&self) -> (r: &'static str)
        ensures
            r@ == self.name(),
    {
        match self {
            RetrievalResultType::Fact => "fact",
            RetrievalResultType::Episode => "episode",
            RetrievalResultType::Memory => "memory",
            RetrievalResultType::Belief => "belief",
        }
    }

    /// The layer of a memory: an episode where it belongs to one, else by its type.
    pub fn from_memory_item(memory_type: &str, episode_id: &Option<String>) -> (r:
        RetrievalResultType)
        ensures
            r == layer_for(memory_type@, *episode_id is Some),
    {
        if episode_id.is_some() {
            return RetrievalResultType::Episode;
        }
        if same(memory_type, "user") || same(memory_type, "preference") || same(
            memory_type,
            "identity",
        ) || same(memory_type, "important_event") || same(memory_type, "knowledge") {
            RetrievalResultType::Fact
        } else {
            RetrievalResultType::Memory
        }
    }
}

// ---------------------------------------------------------------------------
// Filter before the search
// ---------------------------------------------------------------------------

/// Which memories are searched. `None` is no condition.
#[derive(Debug)]
pub struct MemoryRetrievalFilter {
    /// The type is one of them; an empty list is no condition.
    pub memory_types: Option<Vec<String>>,
    /// One of them is a tag; an empty list is no condition.
    pub tags_any: Option<Vec<String>>,
    /// Not made before.
    pub time_after: Option<i64>,
    /// Made before.
    pub time_before: Option<i64>,
}

impl Default for MemoryRetrievalFilter {
    fn default() -> (r: MemoryRetrievalFilter)
        ensures
            r.memory_types is None && r.tags_any is None && r.time_after is None && r.time_before is None,
    {
        MemoryRetrievalFilter {
            memory_types: None,
            tags_any: None,
            time_after: None,
            time_before: None,
        }
    }
}

/// Whether a memory meets all the conditions.
pub open spec fn meets(f: MemoryRetrievalFilter, m: ItemView) -> bool {
    &&& match f.memory_types {
        Some(t) => t@.len() == 0 || texts(t@).contains(m.memory_type),
        None => true,
    }
    &&& match f.tags_any {
        Some(t) => t@.len() == 0 || exists|i: int|
            0 <= i < t@.len() && m.tags.contains(#[trigger] texts(t@)[i]),
        None => true,
    }
    &&& match f.time_after {
        Some(t) => m.timestamp >= t,
        None => true,
    }
    &&& match f.time_before {
        Some(t) => m.timestamp < t,
        None => true,
    }
}

impl MemoryRetrievalFilter {
    /// Whether a memory meets all the conditions.
    pub fn matches(&self, item: &MemoryItem) -> (r: bool)
        ensures
            r == meets(*self, item@),
    {
        if let Some(types) = &self.memory_types {
            if types.len() > 0 && !list_has(types, item.memory_type.as_str()) {
                return false;
            }
        }
        if let Some(tags) = &self.tags_any {
            let mut found: bool = false;
            let mut i: usize = 0;
            let ghost all = texts(tags@);
            while i < tags.len() && !found
                invariant
                    i <= tags@.len(),
                    all == texts(tags@),
                    found == exists|k: int| 0 <= k < i && item@.tags.contains(#[trigger] all[k]),
                decreases tags@.len() - i,
            {
                assert(all[i as int] == tags@[i as int]@);
                if list_has(&item.tags, tags[i].as_str()) {
                    found = true;
                }
                i += 1;
            }
            if tags.len() > 0 && !found {
                return false;
            }
        }
        if let Some(t) = self.time_after {
            if item.timestamp < t {
                return false;
            }
        }
        if let Some(t) = self.time_before {
            if item.timestamp >= t {
                return false;
            }
        }
        true
    }
}

// ---------------------------------------------------------------------------
// Words of a memory
// ---------------------------------------------------------------------------

/// What of a memory its words come from, as bytes.
pub open spec fn fingerprint_bytes(content: Seq<char>, tags: Seq<Seq<char>>, desc: Option<Seq<char>>) -> Seq<
    Seq<u8>,
> {
    seq![encode_utf8(content), seq![0xffu8]] + tag_bytes(tags) + match desc {
        Some(d) => seq![seq![0xfeu8], encode_utf8(d), seq![0xffu8]],
        None => seq![seq![0xfdu8]],
    }
}

/// The tags as bytes, each with an end.
pub open spec fn tag_bytes(tags: Seq<Seq<char>>) -> Seq<Seq<u8>>
    decreases tags.len(),
{
    if tags.len() == 0 {
        Seq::<Seq<u8>>::empty()
    } else {
        tag_bytes(tags.drop_last()).push(encode_utf8(tags.last())).push(seq![0xffu8])
    }
}

/// A hash of what the words of a memory come from: it tells whether the words that
/// were kept are still those of the memory.
pub fn content_fingerprint(content: &str, tags: &Vec<String>, desc: &Option<String>) -> (h: u64)
    ensures
        h == DefaultHasher::spec_finish(
            fingerprint_bytes(content@, texts(tags@), opt_text(*desc)),
        ),
{
    let end = [0xffu8];
    let some = [0xfeu8];
    let none = [0xfdu8];
    proof {
        assert(end@ =~= seq![0xffu8]);
        assert(some@ =~= seq![0xfeu8]);
        assert(none@ =~= seq![0xfdu8]);
    }
    let mut hasher = DefaultHasher::new();
    hasher.write(content.as_bytes());
    hasher.write(vstd::array::array_as_slice(&end));
    let ghost head = hasher@;
    assert(head =~= seq![encode_utf8(content@), seq![0xffu8]]);
    let ghost all = texts(tags@);
    let mut i: usize = 0;
    assert(hasher@ =~= head + tag_bytes(all.take(0)));
    while i < tags.len()
        invariant
            i <= tags@.len(),
            all == texts(tags@),
            end@ == seq![0xffu8],
            hasher@ == head + tag_bytes(all.take(i as int)),
        decreases tags@.len() - i,
    {
        proof {
            assert(all.take(i + 1).drop_last() =~= all.take(i as int));
            assert(all.take(i + 1).last() == tags@[i as int]@);
        }
        hasher.write(tags[i].as_str().as_bytes());
        hasher.write(vstd::array::array_as_slice(&end));
        i += 1;
        assert(hasher@ =~= head + tag_bytes(all.take(i as int)));
    }
    assert(all.take(i as int) =~= all);
    match desc {
        Some(d) => {
            hasher.write(vstd::array::array_as_slice(&some));
            hasher.write(d.as_str().as_bytes());
            hasher.write(vstd::array::array_as_slice(&end));
        },
        None => {
            hasher.write(vstd::array::array_as_slice(&none));
        },
    }
    assert(hasher@ =~= fingerprint_bytes(content@, texts(tags@), opt_text(*desc)));
    hasher.finish()
}

/// How often a word stands in a list.
pub open spec fn frequency(words: Seq<Seq<char>>, w: Seq<char>) -> nat
    decreases words.len(),
{
    if words.len() == 0 {
        0
    } else {
        frequency(words.drop_last(), w) + (if words.last() == w {
            1nat
        } else {
            0nat
        })
    }
}

/// What is stored of how often a word stands in a list.
pub open spec fn stored_frequency(s: Seq<(Seq<char>, usize)>, w: Seq<char>) -> nat {
    match lookup(s, w) {
        Some(n) => n as nat,
        None => 0,
    }
}

proof fn lemma_frequency(words: Seq<Seq<char>>, w: Seq<char>)
    ensures
        frequency(words, w) <= words.len(),
    decreases words.len(),
{
    if words.len() > 0 {
        lemma_frequency(words.drop_last(), w);
    }
}

/// How often each word stands in the list.
pub fn word_frequencies(words: &Vec<String>) -> (out: Assoc<usize>)
    ensures
        forall|w: Seq<char>| #[trigger]
            stored_frequency(out@, w) == frequency(texts(words@), w),
{
    let ghost all = texts(words@);
    let mut out: Assoc<usize> = Assoc::new();
    let mut i: usize = 0;
    let total: usize = words.len();
    while i < total
        invariant
            i <= total,
            total == words@.len(),
            all == texts(words@),
            forall|w: Seq<char>| #[trigger]
                stored_frequency(out@, w) == frequency(all.take(i as int), w),
        decreases total - i,
    {
        let ghost before = out@;
        proof {
            assert(all.take(i + 1).drop_last() =~= all.take(i as int));
            assert(all.take(i + 1).last() == words@[i as int]@);
            lemma_frequency(all.take(i as int), words@[i as int]@);
            assert(stored_frequency(before, words@[i as int]@) == frequency(
                all.take(i as int),
                words@[i as int]@,
            ));
        }
        let n: usize = match out.get(words[i].as_str()) {
            Some(n) => *n,
            None => 0,
        };
        out.insert(words[i].as_str(), n + 1);
        proof {
            assert forall|w: Seq<char>| #[trigger]
                stored_frequency(out@, w) == frequency(all.take(i + 1), w) by {
                lookup_after_put(before, words@[i as int]@, (n + 1) as usize, w);
                assert(stored_frequency(before, w) == frequency(all.take(i as int), w));
            }
        }
        i += 1;
    }
    assert(all.take(i as int) =~= all);
    out
}

// ---------------------------------------------------------------------------
// Names in a query
// ---------------------------------------------------------------------------

/// A common Chinese character.
pub open spec fn is_han(c: char) -> bool {
    0x4E00 <= c as u32 <= 0x9FFF
}

/// Whether the character is a common Chinese one.
pub fn is_cjk(c: char) -> (r: bool)
    ensures
        r == is_han(c),
{
    let n: u32 = c as u32;
    0x4E00 <= n && n <= 0x9FFF
}

/// Whether the word has a character that is not Chinese.
pub open spec fn has_foreign(w: Seq<char>) -> bool {
    exists|i: int| 0 <= i < w.len() && !is_han(#[trigger] w[i])
}

fn any_foreign(w: &[char]) -> (r: bool)
    ensures
        r == has_foreign(w@),
{
    let mut i: usize = 0;
    while i < w.len()
        invariant
            i <= w@.len(),
            forall|k: int| 0 <= k < i ==> is_han(#[trigger] w@[k]),
        decreases w@.len() - i,
    {
        if !is_cjk(w[i]) {
            assert(!is_han(w@[i as int]));
            return true;
        }
        i += 1;
    }
    false
}

/// What of a memory names are looked for in: content, description and tags in lower
/// case.
pub open spec fn haystack(m: ItemView) -> Seq<char> {
    lowercase(m.content) + (match m.description {
        Some(d) => " "@ + lowercase(d),
        None => Seq::<char>::empty(),
    }) + (if m.tags.len() > 0 {
        " "@ + lowercase(join(m.tags, " "@))
    } else {
        Seq::<char>::empty()
    })
}

fn haystack_of(m: &MemoryItem) -> (out: Vec<char>)
    ensures
        out@ == haystack(m@),
{
    let c = lower(m.content.as_str());
    let mut out: String = c;
    if let Some(d) = &m.description {
        let l = lower(d.as_str());
        out.append(" ");
        out.append(l.as_str());
    }
    if m.tags.len() > 0 {
        let j = join_strings(&m.tags, " ");
        let l = lower(j.as_str());
        out.append(" ");
        out.append(l.as_str());
    }
    assert(out@ =~= haystack(m@));
    chars_of(out.as_str())
}

/// Whether a word that may be a name stands in the memory: one of three characters, or
/// with one that is not Chinese.
pub open spec fn names_in(tokens: Seq<Seq<char>>, m: ItemView) -> bool {
    exists|i: int|
        0 <= i < tokens.len() && ((#[trigger] tokens[i]).len() >= 3 || has_foreign(tokens[i]))
            && has_sub(haystack(m), tokens[i])
}

/// Whether a word that may be a name stands in the memory.
pub fn entity_token_hit(tokens: &Vec<String>, item: &MemoryItem) -> (r: bool)
    ensures
        r == names_in(texts(tokens@), item@),
{
    let hay = haystack_of(item);
    let ghost all = texts(tokens@);
    let mut i: usize = 0;
    while i < tokens.len()
        invariant
            i <= tokens@.len(),
            all == texts(tokens@),
            hay@ == haystack(item@),
            forall|k: int|
                0 <= k < i ==> !(((#[trigger] all[k]).len() >= 3 || has_foreign(all[k])) && has_sub(
                    haystack(item@),
                    all[k],
                )),
        decreases tokens@.len() - i,
    {
        assert(all[i as int] == tokens@[i as int]@);
        let t = chars_of(tokens[i].as_str());
        if (t.len() >= 3 || any_foreign(t.as_slice())) && contains_chars(
            hay.as_slice(),
            t.as_slice(),
        ) {
            return true;
        }
        i += 1;
    }
    false
}

/// The words that may be names: those of three characters at least, or with one that is
/// not Chinese, each once.
pub open spec fn name_words(tokens: Seq<Seq<char>>) -> Seq<Seq<char>> {
    distinct_words(tokens).filter(|t: Seq<char>| t.len() >= 3 || has_foreign(t))
}

/// How many of the first `n` names stand in the memory.
pub open spec fn name_hits(names: Seq<Seq<char>>, m: ItemView, n: nat) -> nat
    decreases n,
{
    if n == 0 {
        0
    } else {
        name_hits(names, m, (n - 1) as nat) + (if has_sub(haystack(m), names[n - 1]) {
            1nat
        } else {
            0nat
        })
    }
}

/// A memory with a score.
pub type Scored = (Seq<char>, i64);

/// What the results of an arm are.
pub open spec fn arm_view(v: Seq<(String, i64)>) -> Seq<(Seq<char>, i64)> {
    v.map_values(|p: (String, i64)| (p.0@, p.1))
}

/// A count as a score.
pub open spec fn count_score(n: nat) -> i64 {
    if n > i64::MAX {
        i64::MAX
    } else {
        n as i64
    }
}

/// The memories that hold a name, with how many they hold.
pub open spec fn named_entries(names: Seq<Seq<char>>, entries: Seq<ItemView>, n: nat) -> Seq<Scored>
    decreases n,
{
    if n == 0 {
        Seq::<Scored>::empty()
    } else {
        let rest = named_entries(names, entries, (n - 1) as nat);
        let h = name_hits(names, entries[n - 1], names.len());
        if h > 0 {
            rest.push((entries[n - 1].id, count_score(h)))
        } else {
            rest
        }
    }
}

/// The scores of a list.
pub open spec fn scores_of(s: Seq<Scored>) -> Seq<i128> {
    s.map_values(|p: Scored| p.1 as i128)
}

fn keep_names(tokens: &Vec<String>) -> (out: Vec<String>)
    ensures
        texts(out@) == name_words(texts(tokens@)),
{
    let d = distinct_of(tokens);
    let ghost all = texts(d@);
    let mut out: Vec<String> = Vec::new();
    let mut i: usize = 0;
    let ghost test = |t: Seq<char>| t.len() >= 3 || has_foreign(t);
    proof {
        reveal(Seq::filter);
    }
    assert(texts(out@) =~= all.take(0).filter(test));
    while i < d.len()
        invariant
            i <= d@.len(),
            all == texts(d@),
            test == (|t: Seq<char>| t.len() >= 3 || has_foreign(t)),
            texts(out@) == all.take(i as int).filter(test),
        decreases d@.len() - i,
    {
        proof {
            reveal(Seq::filter);
            assert(all.take(i + 1).drop_last() =~= all.take(i as int));
            assert(all.take(i + 1).last() == d@[i as int]@);
        }
        let t = chars_of(d[i].as_str());
        if t.len() >= 3 || any_foreign(t.as_slice()) {
            let ghost prev = texts(out@);
            out.push(d[i].clone());
            assert(texts(out@) =~= prev.push(d@[i as int]@));
        }
        i += 1;
    }
    assert(all.take(i as int) =~= all);
    out
}

fn count_names(names: &Vec<String>, m: &MemoryItem) -> (n: usize)
    ensures
        n == name_hits(texts(names@), m@, names@.len()),
        n <= names@.len(),
{
    let hay = haystack_of(m);
    let ghost all = texts(names@);
    let mut n: usize = 0;
    let mut i: usize = 0;
    while i < names.len()
        invariant
            i <= names@.len(),
            all == texts(names@),
            hay@ == haystack(m@),
            n <= i,
            n == name_hits(all, m@, i as nat),
        decreases names@.len() - i,
    {
        assert(all[i as int] == names@[i as int]@);
        let t = chars_of(names[i].as_str());
        if contains_chars(hay.as_slice(), t.as_slice()) {
            n += 1;
        }
        i += 1;
    }
    n
}

/// The first `k` of the results of an arm, best first.
pub fn rank_arm(scored: Vec<(String, i64)>, k: usize) -> (out: Vec<(String, i64)>)
    ensures
        arm_view(out@) == ranked(arm_view(scored@), scores_of(arm_view(scored@)), k as int),
{
    let ghost all = arm_view(scored@);
    let mut keys: Vec<i128> = Vec::new();
    let mut i: usize = 0;
    while i < scored.len()
        invariant
            i <= scored@.len(),
            all == arm_view(scored@),
            keys@ == scores_of(all).take(i as int),
        decreases scored@.len() - i,
    {
        keys.push(scored[i].1 as i128);
        i += 1;
        assert(all[i - 1].1 == scored@[i - 1].1);
        assert(scores_of(all).take(i as int) =~= scores_of(all).take(i - 1).push(
            scores_of(all)[i - 1],
        ));
    }
    assert(scores_of(all).take(i as int) =~= scores_of(all));
    let p = order_desc(&keys);
    let n: usize = if k < p.len() {
        k
    } else {
        p.len()
    };
    let ghost want = ranked(all, scores_of(all), k as int);
    proof {
        order_sorts(scores_of(all));
    }
    let mut out: Vec<(String, i64)> = Vec::new();
    let mut j: usize = 0;
    assert(arm_view(out@) =~= want.take(0));
    while j < n
        invariant
            j <= n <= p@.len(),
            n == want.len(),
            p@.len() == scored@.len(),
            all == arm_view(scored@),
            want == ranked(all, scores_of(all), k as int),
            positions(p@) == order_of(scores_of(all)),
            forall|x: int| 0 <= x < p@.len() ==> (#[trigger] p@[x]) < scored@.len(),
            arm_view(out@) == want.take(j as int),
        decreases n - j,
    {
        let at: usize = p[j];
        let ghost prev = arm_view(out@);
        out.push((scored[at].0.clone(), scored[at].1));
        assert(positions(p@)[j as int] == at as int);
        assert(all[at as int] == (scored@[at as int].0@, scored@[at as int].1));
        assert(arm_view(out@) =~= prev.push(want[j as int]));
        j += 1;
        assert(want.take(j as int) =~= want.take(j - 1).push(want[j - 1]));
    }
    assert(want.take(j as int) =~= want);
    out
}

/// The arm that looks for the names of a query, given its words.
pub fn entity_arm_search(entries: &[MemoryItem], tokens: &Vec<String>, k: usize) -> (out: Vec<
    (String, i64),
>)
    ensures
        arm_view(out@) == ({
            let found = named_entries(
                name_words(texts(tokens@)),
                item_views(entries@),
                entries@.len(),
            );
            ranked(found, scores_of(found), k as int)
        }),
{
    let names = keep_names(tokens);
    assert(texts(names@).len() == names@.len());
    let ghost all = item_views(entries@);
    let ghost ns = texts(names@);
    let mut found: Vec<(String, i64)> = Vec::new();
    let mut i: usize = 0;
    assert(arm_view(found@) =~= named_entries(ns, all, 0));
    while i < entries.len()
        invariant
            i <= entries@.len(),
            all == item_views(entries@),
            ns == texts(names@),
            ns.len() == names@.len(),
            arm_view(found@) == named_entries(ns, all, i as nat),
        decreases entries@.len() - i,
    {
        assert(all[i as int] == entries@[i as int]@);
        let h: usize = count_names(&names, &entries[i]);
        if h > 0 {
            let ghost prev = arm_view(found@);
            let score: i64 = if h as u128 > 9_223_372_036_854_775_807 {
                i64::MAX
            } else {
                h as i64
            };
            found.push((entries[i].id.clone(), score));
            assert(arm_view(found@) =~= prev.push((all[i as int].id, count_score(h as nat))));
        }
        i += 1;
    }
    rank_arm(found, k)
}

/// The hits of the vector store that are still memories, best first.
pub fn known_vector_hits(entries: &[MemoryItem], hits: Vec<(String, i64)>) -> (out: Vec<(String, i64)>)
    ensures
        arm_view(out@) == ({
            let known = arm_view(
                hits@.filter(|h: (String, i64)| last_with_id(item_views(entries@), h.0@) is Some),
            );
            ranked(known, scores_of(known), known.len() as int)
        }),
{
    let mut flags: Vec<bool> = Vec::new();
    let mut i: usize = 0;
    while i < hits.len()
        invariant
            i <= hits@.len(),
            flags@.len() == i,
            forall|k: int|
                0 <= k < i ==> #[trigger] flags@[k] == (last_with_id(
                    item_views(entries@),
                    hits@[k].0@,
                ) is Some),
        decreases hits@.len() - i,
    {
        flags.push(position_by_id(entries, hits[i].0.as_str()).is_some());
        i += 1;
    }
    proof {
        kept_is_filter(
            hits@,
            flags@,
            |h: (String, i64)| last_with_id(item_views(entries@), h.0@) is Some,
        );
    }
    let known = take_flagged(hits, &flags);
    let n: usize = known.len();
    assert(arm_view(known@).len() == n);
    rank_arm(known, n)
}

// ---------------------------------------------------------------------------
// Fusing the arms
// ---------------------------------------------------------------------------

/// The identifiers of an arm added to others.
pub open spec fn with_arm(s: Seq<Seq<char>>, arm: Seq<Scored>) -> Seq<Seq<char>>
    decreases arm.len(),
{
    if arm.len() == 0 {
        s
    } else {
        with_id(with_arm(s, arm.drop_last()), arm.last().0)
    }
}

/// The four arms of a search, best results first: words, vectors, graph, names.
pub struct Arms {
    pub bm25: Seq<Scored>,
    pub vector: Seq<Scored>,
    pub graph: Seq<Scored>,
    pub entity: Seq<Scored>,
}

/// The identifiers in the arms, in order and each once.
pub open spec fn arm_ids(a: Arms) -> Seq<Seq<char>> {
    with_arm(with_arm(with_arm(with_arm(Seq::empty(), a.bm25), a.vector), a.graph), a.entity)
}

/// The rank of a memory in an arm, from zero; the last where it stands there twice.
pub open spec fn rank_in(arm: Seq<Scored>, id: Seq<char>) -> Option<int>
    decreases arm.len(),
{
    if arm.len() == 0 {
        None
    } else if arm.last().0 == id {
        Some(arm.len() - 1)
    } else {
        rank_in(arm.drop_last(), id)
    }
}

/// What a rank in an arm counts: the inverse of sixty-one and the rank.
pub open spec fn rank_worth(rank: Option<int>) -> int {
    match rank {
        Some(r) => FUSED_ONE as int / (RRF_K + r + 1),
        None => 0,
    }
}

/// The score of a memory in an arm; zero where it is not there.
pub open spec fn score_in(arm: Seq<Scored>, id: Seq<char>) -> i64 {
    match rank_in(arm, id) {
        Some(r) => arm[r].1,
        None => 0,
    }
}

/// A fused result.
pub struct FusedView {
    pub id: Seq<char>,
    pub bm25: i64,
    pub vector: i64,
    pub graph: i64,
    pub fused: i64,
}

/// What the arms say together of a memory.
pub open spec fn fused_for(a: Arms, id: Seq<char>) -> FusedView {
    FusedView {
        id,
        bm25: score_in(a.bm25, id),
        vector: score_in(a.vector, id),
        graph: score_in(a.graph, id),
        fused: (rank_worth(rank_in(a.bm25, id)) + rank_worth(rank_in(a.vector, id)) + rank_worth(
            rank_in(a.graph, id),
        ) + rank_worth(rank_in(a.entity, id))) as i64,
    }
}

/// The fused results, best first; equal ones in the order of their identifiers.
pub open spec fn fused_list(a: Arms) -> Seq<FusedView> {
    let s = arm_ids(a).map_values(|id: Seq<char>| fused_for(a, id));
    ranked(s, s.map_values(|f: FusedView| f.fused as i128), s.len() as int)
}

/// A fused result.
#[derive(Debug)]
pub struct FusedHit {
    pub id: String,
    pub bm25: i64,
    pub vector: i64,
    pub graph: i64,
    pub fused: i64,
}

impl View for FusedHit {
    type V = FusedView;

    open spec fn view(&self) -> FusedView {
        FusedView {
            id: self.id@,
            bm25: self.bm25,
            vector: self.vector,
            graph: self.graph,
            fused: self.fused,
        }
    }
}

/// What the fused results of a list are.
pub open spec fn fused_views(v: Seq<FusedHit>) -> Seq<FusedView> {
    v.map_values(|h: FusedHit| h@)
}

fn add_arm(ids: &mut Vec<String>, arm: &Vec<(String, i64)>)
    ensures
        texts(final(ids)@) == with_arm(texts(old(ids)@), arm_view(arm@)),
{
    let ghost s = texts(ids@);
    let ghost all = arm_view(arm@);
    let mut i: usize = 0;
    assert(with_arm(s, all.take(0)) == s);
    while i < arm.len()
        invariant
            i <= arm@.len(),
            all == arm_view(arm@),
            texts(ids@) == with_arm(s, all.take(i as int)),
        decreases arm@.len() - i,
    {
        proof {
            assert(all.take(i + 1).drop_last() =~= all.take(i as int));
            assert(all.take(i + 1).last().0 == arm@[i as int].0@);
        }
        add_id(ids, arm[i].0.as_str());
        i += 1;
    }
    assert(all.take(i as int) =~= all);
}

fn find_rank(arm: &Vec<(String, i64)>, id: &str) -> (r: Option<usize>)
    ensures
        match r {
            Some(i) => rank_in(arm_view(arm@), id@) == Some(i as int) && i < arm@.len(),
            None => rank_in(arm_view(arm@), id@) is None,
        },
{
    let ghost all = arm_view(arm@);
    let mut i: usize = arm.len();
    assert(all.take(i as int) =~= all);
    while i > 0
        invariant
            i <= arm@.len(),
            all == arm_view(arm@),
            rank_in(all.take(i as int), id@) == rank_in(all, id@),
        decreases i,
    {
        assert(all.take(i as int).drop_last() =~= all.take(i - 1));
        assert(all.take(i as int).last().0 == arm@[i - 1].0@);
        if same(arm[i - 1].0.as_str(), id) {
            return Some(i - 1);
        }
        i -= 1;
    }
    None
}

fn worth_of(rank: Option<usize>) -> (r: i64)
    ensures
        r == rank_worth(
            match rank {
                Some(i) => Some(i as int),
                None => None,
            },
        ),
        0 <= r <= FUSED_ONE,
{
    match rank {
        Some(i) => {
            let d: i128 = RRF_K + i as i128 + 1;
            assert(0 <= FUSED_ONE as int / (d as int) <= FUSED_ONE) by (nonlinear_arith)
                requires
                    d >= 1,
                    FUSED_ONE == 1_000_000_000_000,
            ;
            let q: i128 = FUSED_ONE as i128 / d;
            q as i64
        },
        None => 0,
    }
}

fn score_at(arm: &Vec<(String, i64)>, rank: Option<usize>) -> (r: i64)
    requires
        rank is Some ==> rank->0 < arm@.len(),
    ensures
        r == (match rank {
            Some(i) => arm_view(arm@)[i as int].1,
            None => 0,
        }),
{
    match rank {
        Some(i) => arm[i].1,
        None => 0,
    }
}

fn fuse_one(
    bm25: &Vec<(String, i64)>,
    vector: &Vec<(String, i64)>,
    graph: &Vec<(String, i64)>,
    entity: &Vec<(String, i64)>,
    id: &str,
) -> (r: FusedHit)
    ensures
        r@ == fused_for(
            Arms {
                bm25: arm_view(bm25@),
                vector: arm_view(vector@),
                graph: arm_view(graph@),
                entity: arm_view(entity@),
            },
            id@,
        ),
{
    let a = find_rank(bm25, id);
    let b = find_rank(vector, id);
    let c = find_rank(graph, id);
    let d = find_rank(entity, id);
    let fused: i64 = worth_of(a) + worth_of(b) + worth_of(c) + worth_of(d);
    FusedHit {
        id: id.to_owned(),
        bm25: score_at(bm25, a),
        vector: score_at(vector, b),
        graph: score_at(graph, c),
        fused,
    }
}

/// Fuses the arms by rank: each adds the inverse of sixty-one and the rank.
pub fn rrf_fuse(
    bm25: &Vec<(String, i64)>,
    vector: &Vec<(String, i64)>,
    graph: &Vec<(String, i64)>,
    entity: &Vec<(String, i64)>,
) -> (out: Vec<FusedHit>)
    ensures
        fused_views(out@) == fused_list(
            Arms {
                bm25: arm_view(bm25@),
                vector: arm_view(vector@),
                graph: arm_view(graph@),
                entity: arm_view(entity@),
            },
        ),
{
    let ghost arms = Arms {
        bm25: arm_view(bm25@),
        vector: arm_view(vector@),
        graph: arm_view(graph@),
        entity: arm_view(entity@),
    };
    let mut ids: Vec<String> = Vec::new();
    assert(texts(ids@) =~= Seq::<Seq<char>>::empty());
    add_arm(&mut ids, bm25);
    add_arm(&mut ids, vector);
    add_arm(&mut ids, graph);
    add_arm(&mut ids, entity);
    let ghost all = arm_ids(arms).map_values(|id: Seq<char>| fused_for(arms, id));
    let ghost keys_of = all.map_values(|f: FusedView| f.fused as i128);
    let mut list: Vec<FusedHit> = Vec::new();
    let mut keys: Vec<i128> = Vec::new();
    let mut i: usize = 0;
    assert(texts(ids@).len() == ids@.len());
    while i < ids.len()
        invariant
            i <= ids@.len(),
            texts(ids@) == arm_ids(arms),
            all == arm_ids(arms).map_values(|id: Seq<char>| fused_for(arms, id)),
            keys_of == all.map_values(|f: FusedView| f.fused as i128),
            arms == (Arms {
                bm25: arm_view(bm25@),
                vector: arm_view(vector@),
                graph: arm_view(graph@),
                entity: arm_view(entity@),
            }),
            list@.len() == i,
            forall|k: int| 0 <= k < i ==> (#[trigger] list@[k])@ == all[k],
            keys@ == keys_of.take(i as int),
        decreases ids@.len() - i,
    {
        let h = fuse_one(bm25, vector, graph, entity, ids[i].as_str());
        assert(texts(ids@)[i as int] == ids@[i as int]@);
        assert(h@ == all[i as int]);
        keys.push(h.fused as i128);
        list.push(h);
        i += 1;
        assert(keys_of.take(i as int) =~= keys_of.take(i - 1).push(keys_of[i - 1]));
    }
    assert(keys_of.take(i as int) =~= keys_of);
    let p = order_desc(&keys);
    proof {
        order_sorts(keys_of);
    }
    let ghost want = fused_list(arms);
    let mut out: Vec<FusedHit> = Vec::new();
    let mut j: usize = 0;
    while j < p.len()
        invariant
            j <= p@.len(),
            p@.len() == list@.len(),
            p@.len() == all.len(),
            want == ranked(all, keys_of, all.len() as int),
            want.len() == p@.len(),
            positions(p@) == order_of(keys_of),
            forall|x: int| 0 <= x < p@.len() ==> (#[trigger] p@[x]) < list@.len(),
            forall|k: int| 0 <= k < list@.len() ==> (#[trigger] list@[k])@ == all[k],
            out@.len() == j,
            forall|k: int| 0 <= k < j ==> (#[trigger] out@[k])@ == want[k],
        decreases p@.len() - j,
    {
        let at: usize = p[j];
        assert(positions(p@)[j as int] == at as int);
        let h = &list[at];
        out.push(
            FusedHit {
                id: h.id.clone(),
                bm25: h.bm25,
                vector: h.vector,
                graph: h.graph,
                fused: h.fused,
            },
        );
        assert(out@[j as int]@ == want[j as int]);
        j += 1;
    }
    assert(fused_views(out@) =~= want);
    out
}

/// Every memory of an arm is among the fused results' identifiers, and every
/// identifier comes from an arm.
pub proof fn fusing_keeps_every_memory(s: Seq<Seq<char>>, arm: Seq<Scored>, id: Seq<char>)
    ensures
        with_arm(s, arm).contains(id) <==> s.contains(id) || exists|i: int|
            0 <= i < arm.len() && (#[trigger] arm[i]).0 == id,
    decreases arm.len(),
{
    if arm.len() > 0 {
        let p = arm.drop_last();
        fusing_keeps_every_memory(s, p, id);
        lemma_with_id_members(with_arm(s, p), arm.last().0, id);
        if exists|i: int| 0 <= i < p.len() && (#[trigger] p[i]).0 == id {
            let i = choose|i: int| 0 <= i < p.len() && (#[trigger] p[i]).0 == id;
            assert(arm[i].0 == id);
        }
        if exists|i: int| 0 <= i < arm.len() && (#[trigger] arm[i]).0 == id {
            let i = choose|i: int| 0 <= i < arm.len() && (#[trigger] arm[i]).0 == id;
            if i < p.len() {
                assert(p[i].0 == id);
            }
        }
        assert(arm[arm.len() - 1] == arm.last());
    }
}

// ---------------------------------------------------------------------------
// Ranking by five components
// ---------------------------------------------------------------------------

/// How much each component counts, in millionths.
#[derive(Debug, Clone, Copy, PartialEq, Eq, Structural)]
pub struct RetrievalWeights {
    pub recency: i64,
    pub relevance: i64,
    pub importance: i64,
    pub hook_boost: i64,
    pub need_sim: i64,
    /// Time after which recency has fallen to a third, in milliseconds.
    pub recency_tau: i64,
    /// Smallest score of a result; zero is no limit.
    pub min_score: i64,
}

impl Default for RetrievalWeights {
    fn default() -> (r: RetrievalWeights)
        ensures
            r == (RetrievalWeights {
                recency: 250_000,
                relevance: 400_000,
                importance: 150_000,
                hook_boost: 100_000,
                need_sim: 100_000,
                recency_tau: 86_400_000,
                min_score: 150_000,
            }),
    {
        RetrievalWeights {
            recency: 250_000,
            relevance: 400_000,
            importance: 150_000,
            hook_boost: 100_000,
            need_sim: 100_000,
            recency_tau: 86_400_000,
            min_score: 150_000,
        }
    }
}

/// Largest sum of weights, whatever their signs, with which every score fits.
pub const MAX_WEIGHTS: i128 = 9_223_372_036_854;

/// A weight whatever its sign.
pub open spec fn magnitude(w: i64) -> int {
    if w < 0 {
        -w
    } else {
        w as int
    }
}

/// Weights with which every score fits.
pub open spec fn usable(w: RetrievalWeights) -> bool {
    magnitude(w.recency) + magnitude(w.relevance) + magnitude(w.importance) + magnitude(w.hook_boost) + magnitude(
        w.need_sim,
    ) <= MAX_WEIGHTS
}

fn size_of_weight(w: i64) -> (r: i128)
    ensures
        r == magnitude(w),
        0 <= r <= 9_223_372_036_854_775_808,
{
    if w < 0 {
        -(w as i128)
    } else {
        w as i128
    }
}

impl RetrievalWeights {
    /// Whether every score fits with these weights.
    pub fn fit(&self) -> (r: bool)
        ensures
            r == usable(*self),
    {
        size_of_weight(self.recency) + size_of_weight(self.relevance) + size_of_weight(self.importance)
            + size_of_weight(self.hook_boost) + size_of_weight(self.need_sim) <= MAX_WEIGHTS
    }
}

/// A result of the search.
#[derive(Debug)]
pub struct RetrievalHit {
    pub item: MemoryItem,
    pub bm25_score: i64,
    pub vector_score: i64,
    pub graph_score: i64,
    pub fused_score: i64,
    pub result_type: RetrievalResultType,
}

/// What a result is.
pub struct RetrievalView {
    pub item: ItemView,
    pub bm25_score: i64,
    pub vector_score: i64,
    pub graph_score: i64,
    pub fused_score: i64,
    pub result_type: RetrievalResultType,
}

impl View for RetrievalHit {
    type V = RetrievalView;

    open spec fn view(&self) -> RetrievalView {
        RetrievalView {
            item: self.item@,
            bm25_score: self.bm25_score,
            vector_score: self.vector_score,
            graph_score: self.graph_score,
            fused_score: self.fused_score,
            result_type: self.result_type,
        }
    }
}

impl Clone for RetrievalHit {
    fn clone(&self) -> (r: RetrievalHit)
        ensures
            r@ == self@,
    {
        RetrievalHit {
            item: self.item.clone(),
            bm25_score: self.bm25_score,
            vector_score: self.vector_score,
            graph_score: self.graph_score,
            fused_score: self.fused_score,
            result_type: self.result_type,
        }
    }
}

/// What the results of a list are.
pub open spec fn result_views(v: Seq<RetrievalHit>) -> Seq<RetrievalView> {
    v.map_values(|h: RetrievalHit| h@)
}

/// Percentage of the score that a semantic type gives.
pub open spec fn semantic_percent(t: SemanticType) -> i64 {
    match t {
        SemanticType::User | SemanticType::Feedback => 115,
        SemanticType::Relationship => 110,
        SemanticType::SharedMemory | SemanticType::Project => 105,
        SemanticType::Reference => 100,
        SemanticType::General => 95,
    }
}

/// Percentage of the score that a semantic type gives.
pub fn semantic_type_boost(t: SemanticType) -> (r: i64)
    ensures
        r == semantic_percent(t),
        95 <= r <= 115,
{
    match t {
        SemanticType::User | SemanticType::Feedback => 115,
        SemanticType::Relationship => 110,
        SemanticType::SharedMemory | SemanticType::Project => 105,
        SemanticType::Reference => 100,
        SemanticType::General => 95,
    }
}

/// Percentage of the score that the source of a memory gives.
pub open spec fn source_percent(meta: Map<Seq<char>, MetaView>) -> i64 {
    match text_at(meta, "knowledge_source"@) {
        Some(s) => if s == "direct"@ {
            120
        } else if s == "heard"@ {
            90
        } else if s == "observed"@ {
            50
        } else {
            100
        },
        None => 100,
    }
}

/// Percentage of the score that the source of a memory gives: more for what the user
/// said than for what was heard or watched.
pub fn knowledge_source_boost(metadata: &Metadata) -> (r: i64)
    ensures
        r == source_percent(metadata@),
        50 <= r <= 120,
{
    match metadata.text("knowledge_source") {
        Some(s) => {
            if same(s.as_str(), "direct") {
                120
            } else if same(s.as_str(), "heard") {
                90
            } else if same(s.as_str(), "observed") {
                50
            } else {
                100
            }
        },
        None => 100,
    }
}

/// The components of a score.
#[derive(Debug, Clone, Copy, PartialEq, Eq, Structural)]
pub struct RawScores {
    pub relevance: i128,
    pub recency: i128,
    pub importance: i128,
    pub hook: i128,
    pub need: i128,
}

/// What the clock says of a result, in millionths: its recency, and its importance
/// after decay.
#[derive(Debug, Clone, Copy, PartialEq, Eq, Structural)]
pub struct HitFactors {
    pub recency: i64,
    pub decayed_importance: i64,
}

/// Whether a memory has a hook that is still open.
pub open spec fn has_open_hook(m: ItemView) -> bool {
    exists|i: int| 0 <= i < m.open_hooks.len() && (#[trigger] m.open_hooks[i]).closed_at is None
}

/// The fused score after the boosts.
pub open spec fn boosted(fused: i64, m: ItemView, query_words: Seq<Seq<char>>) -> int {
    fused * semantic_percent(semantic(m)) * source_percent(m.metadata) * (if names_in(
        query_words,
        m,
    ) {
        ENTITY_BOOST as int
    } else {
        1
    }) / 10_000
}

/// The importance after decay, more by up to a fifth for a memory with moods.
pub open spec fn felt_importance(decayed: i64, moods: nat) -> int {
    decayed * (15 + (if moods < 3 {
        moods as int
    } else {
        3
    })) / 15
}

/// The components of the score of a memory.
pub open spec fn raw_scores(
    fused: i64,
    m: ItemView,
    f: HitFactors,
    query_words: Seq<Seq<char>>,
    words: Seq<Seq<char>>,
) -> RawScores {
    RawScores {
        relevance: boosted(fused, m, query_words) as i128,
        recency: f.recency as i128,
        importance: felt_importance(
            f.decayed_importance,
            list_at(m.metadata, "mood_tags"@).len(),
        ) as i128,
        hook: if has_open_hook(m) {
            ONE as i128
        } else {
            0
        },
        need: jaccard(distinct_words(query_words), words) as i128,
    }
}

/// The `k`-th component.
pub open spec fn part(r: RawScores, k: int) -> i128 {
    if k == 0 {
        r.relevance
    } else if k == 1 {
        r.recency
    } else if k == 2 {
        r.importance
    } else if k == 3 {
        r.hook
    } else {
        r.need
    }
}

/// The smallest and the largest `k`-th component, where there is one.
pub open spec fn spread(raws: Seq<Option<RawScores>>, k: int) -> Option<(i128, i128)>
    decreases raws.len(),
{
    if raws.len() == 0 {
        None
    } else {
        let rest = spread(raws.drop_last(), k);
        match raws.last() {
            Some(r) => {
                let x = part(r, k);
                match rest {
                    Some(b) => Some(
                        (
                            if x < b.0 {
                                x
                            } else {
                                b.0
                            },
                            if x > b.1 {
                                x
                            } else {
                                b.1
                            },
                        ),
                    ),
                    None => Some((x, x)),
                }
            },
            None => rest,
        }
    }
}

/// A component on the scale from the smallest to the largest, in millionths; one where
/// all are equal.
pub open spec fn normed(x: i128, b: Option<(i128, i128)>) -> int {
    match b {
        Some(s) => if s.0 == s.1 {
            ONE as int
        } else {
            (x - s.0) * ONE / (s.1 - s.0)
        },
        None => ONE as int,
    }
}

/// The weighted sum of the components.
pub open spec fn final_score(r: RawScores, raws: Seq<Option<RawScores>>, w: RetrievalWeights) -> int {
    w.recency * normed(r.recency, spread(raws, 1)) + w.relevance * normed(
        r.relevance,
        spread(raws, 0),
    ) + w.importance * normed(r.importance, spread(raws, 2)) + w.hook_boost * normed(
        r.hook,
        spread(raws, 3),
    ) + w.need_sim * normed(r.need, spread(raws, 4))
}

/// A number in millionths, within the bounds of metadata.
pub open spec fn clamped(x: int) -> MetaView {
    MetaView::Micros(
        if x > i64::MAX {
            i64::MAX
        } else if x < i64::MIN {
            i64::MIN
        } else {
            x as i64
        },
    )
}

/// The metadata of a memory with its scores.
pub open spec fn scored_metadata(
    m: ItemView,
    bm25: i64,
    vector: i64,
    r: RawScores,
    raws: Seq<Option<RawScores>>,
    w: RetrievalWeights,
    n: nat,
) -> Map<Seq<char>, MetaView> {
    m.metadata.insert("bm25_score"@, MetaView::Micros(bm25)).insert(
        "vector_similarity"@,
        MetaView::Micros(vector),
    ).insert("fused_score"@, clamped(final_score(r, raws, w) / 1_000_000)).insert(
        "recency_score"@,
        clamped(r.recency as int),
    ).insert("relevance_score"@, clamped(r.relevance as int / 1_000_000)).insert(
        "importance_score"@,
        clamped(r.importance as int),
    ).insert("hook_boost_score"@, clamped(r.hook as int)).insert(
        "need_sim_score"@,
        clamped(r.need as int),
    ).insert("norm_recency"@, clamped(normed(r.recency, spread(raws, 1)))).insert(
        "norm_relevance"@,
        clamped(normed(r.relevance, spread(raws, 0))),
    ).insert("norm_importance"@, clamped(normed(r.importance, spread(raws, 2)))).insert(
        "norm_hook_boost"@,
        clamped(normed(r.hook, spread(raws, 3))),
    ).insert("norm_need_sim"@, clamped(normed(r.need, spread(raws, 4)))).insert(
        "semantic_boost"@,
        clamped(semantic_percent(semantic(m)) * 10_000),
    ).insert("knowledge_source_boost"@, clamped(source_percent(m.metadata) * 10_000)).insert(
        "normalize_n"@,
        MetaView::Int(n as i64),
    )
}

/// The components of the results whose memory is known.
pub open spec fn raw_list(
    hits: Seq<RetrievalView>,
    entries: Seq<ItemView>,
    factors: Seq<HitFactors>,
    query_words: Seq<Seq<char>>,
    words: Seq<Seq<Seq<char>>>,
) -> Seq<Option<RawScores>> {
    Seq::new(
        hits.len(),
        |i: int|
            match last_with_id(entries, hits[i].item.id) {
                Some(at) => Some(
                    raw_scores(hits[i].fused_score, entries[at], factors[i], query_words, words[at]),
                ),
                None => None,
            },
    )
}

/// The number of results whose memory is known.
pub open spec fn known_count(raws: Seq<Option<RawScores>>) -> nat
    decreases raws.len(),
{
    if raws.len() == 0 {
        0
    } else {
        known_count(raws.drop_last()) + (if raws.last() is Some {
            1nat
        } else {
            0nat
        })
    }
}

/// A result with its memory and its score; one whose memory is not known as it is.
pub open spec fn attached_hit(
    h: RetrievalView,
    entries: Seq<ItemView>,
    raw: Option<RawScores>,
    raws: Seq<Option<RawScores>>,
    w: RetrievalWeights,
) -> RetrievalView {
    match (last_with_id(entries, h.item.id), raw) {
        (Some(at), Some(r)) => RetrievalView {
            item: ItemView {
                metadata: scored_metadata(
                    entries[at],
                    h.bm25_score,
                    h.vector_score,
                    r,
                    raws,
                    w,
                    known_count(raws),
                ),
                ..entries[at]
            },
            fused_score: final_score(r, raws, w) as i64,
            result_type: layer_for(entries[at].memory_type, entries[at].episode_id is Some),
            ..h
        },
        _ => h,
    }
}

/// Whether a result is shown: it has a content, and its score reaches the limit.
pub open spec fn is_shown(h: RetrievalView, w: RetrievalWeights) -> bool {
    h.item.content.len() > 0 && (w.min_score <= 0 || h.fused_score >= w.min_score * 1_000_000)
}

/// The results with their memories and scores, best first.
pub open spec fn attached(
    hits: Seq<RetrievalView>,
    entries: Seq<ItemView>,
    factors: Seq<HitFactors>,
    w: RetrievalWeights,
    query_words: Seq<Seq<char>>,
    words: Seq<Seq<Seq<char>>>,
) -> Seq<RetrievalView> {
    let raws = raw_list(hits, entries, factors, query_words, words);
    let all = Seq::new(hits.len(), |i: int| attached_hit(hits[i], entries, raws[i], raws, w));
    let shown = all.filter(|h: RetrievalView| is_shown(h, w));
    ranked(shown, shown.map_values(|h: RetrievalView| h.fused_score as i128), shown.len() as int)
}

fn any_open_hook(m: &MemoryItem) -> (r: bool)
    ensures
        r == has_open_hook(m@),
{
    let ghost all = hook_views(m.open_hooks@);
    let mut i: usize = 0;
    while i < m.open_hooks.len()
        invariant
            i <= m.open_hooks@.len(),
            all == hook_views(m.open_hooks@),
            forall|k: int| 0 <= k < i ==> (#[trigger] all[k]).closed_at is Some,
        decreases m.open_hooks@.len() - i,
    {
        assert(all[i as int] == m.open_hooks@[i as int]@);
        if m.open_hooks[i].is_open() {
            assert(m@.open_hooks[i as int].closed_at is None);
            return true;
        }
        i += 1;
    }
    false
}

/// A component that leaves room for sums.
pub open spec fn small(x: i128) -> bool {
    -1_000_000_000_000_000_000_000 <= x <= 1_000_000_000_000_000_000_000
}

/// Components that leave room for sums.
pub open spec fn small_scores(r: RawScores) -> bool {
    small(r.relevance) && small(r.recency) && small(r.importance) && small(r.hook) && small(r.need)
}

fn score_raw(
    fused: i64,
    m: &MemoryItem,
    f: HitFactors,
    query_words: &Vec<String>,
    words: &Vec<String>,
) -> (r: RawScores)
    ensures
        r == raw_scores(fused, m@, f, texts(query_words@), texts(words@)),
        small_scores(r),
{
    let sem: i128 = semantic_type_boost(m.semantic_type()) as i128;
    let src: i128 = knowledge_source_boost(&m.metadata) as i128;
    let ent: i128 = if entity_token_hit(query_words, m) {
        ENTITY_BOOST
    } else {
        1
    };
    let wide: i128 = fused as i128;
    proof {
        let m = 9_223_372_036_854_775_808int;
        assert(-m * 115 <= wide * sem <= m * 115) by (nonlinear_arith)
            requires
                -m <= wide <= m,
                95 <= sem <= 115,
                m > 0,
        ;
        assert(-m * 115 * 120 <= wide * sem * src <= m * 115 * 120) by (nonlinear_arith)
            requires
                -m * 115 <= wide * sem <= m * 115,
                50 <= src <= 120,
                m > 0,
        ;
        assert(-m * 115 * 120 * 3 <= wide * sem * src * ent <= m * 115 * 120 * 3) by (nonlinear_arith)
            requires
                -m * 115 * 120 <= wide * sem * src <= m * 115 * 120,
                1 <= ent <= 3,
                m > 0,
        ;
    }
    let product: i128 = wide * sem * src * ent;
    let relevance: i128 = floor_div(product, 10_000);
    let moods = m.mood_tags();
    assert(texts(moods@).len() == moods@.len());
    let k: i128 = if moods.len() < 3 {
        moods.len() as i128
    } else {
        3
    };
    let decayed: i128 = f.decayed_importance as i128;
    assert(-9_223_372_036_854_775_808 * 18 <= decayed * (15 + k) <= 9_223_372_036_854_775_808 * 18) by (
        nonlinear_arith)
        requires
            -9_223_372_036_854_775_808 <= decayed <= 9_223_372_036_854_775_808,
            0 <= k <= 3,
    ;
    let importance: i128 = floor_div(decayed * (15 + k), 15);
    let hook: i128 = if any_open_hook(m) {
        ONE as i128
    } else {
        0
    };
    let q = distinct_of(query_words);
    let need: i128 = jaccard_similarity(&q, words) as i128;
    RawScores { relevance, recency: f.recency as i128, importance, hook, need }
}

fn part_of(r: &RawScores, k: usize) -> (x: i128)
    ensures
        x == part(*r, k as int),
{
    if k == 0 {
        r.relevance
    } else if k == 1 {
        r.recency
    } else if k == 2 {
        r.importance
    } else if k == 3 {
        r.hook
    } else {
        r.need
    }
}

fn find_spread(raws: &Vec<Option<RawScores>>, k: usize) -> (r: Option<(i128, i128)>)
    requires
        forall|i: int| 0 <= i < raws@.len() && (#[trigger] raws@[i]) is Some ==> small_scores(raws@[i]->0),
    ensures
        r == spread(raws@, k as int),
        match r {
            Some(b) => small(b.0) && small(b.1) && b.0 <= b.1 && forall|i: int|
                0 <= i < raws@.len() && (#[trigger] raws@[i]) is Some ==> b.0 <= part(
                    raws@[i]->0,
                    k as int,
                ) <= b.1,
            None => forall|i: int| 0 <= i < raws@.len() ==> (#[trigger] raws@[i]) is None,
        },
{
    let mut r: Option<(i128, i128)> = None;
    let mut i: usize = 0;
    while i < raws.len()
        invariant
            i <= raws@.len(),
            forall|j: int|
                0 <= j < raws@.len() && (#[trigger] raws@[j]) is Some ==> small_scores(raws@[j]->0),
            r == spread(raws@.take(i as int), k as int),
            match r {
                Some(b) => small(b.0) && small(b.1) && b.0 <= b.1 && forall|j: int|
                    0 <= j < i && (#[trigger] raws@[j]) is Some ==> b.0 <= part(
                        raws@[j]->0,
                        k as int,
                    ) <= b.1,
                None => forall|j: int| 0 <= j < i ==> (#[trigger] raws@[j]) is None,
            },
        decreases raws@.len() - i,
    {
        proof {
            assert(raws@.take(i + 1).drop_last() =~= raws@.take(i as int));
            assert(raws@.take(i + 1).last() == raws@[i as int]);
        }
        if let Some(s) = &raws[i] {
            let x: i128 = part_of(s, k);
            r = match r {
                Some(b) => Some(
                    (
                        if x < b.0 {
                            x
                        } else {
                            b.0
                        },
                        if x > b.1 {
                            x
                        } else {
                            b.1
                        },
                    ),
                ),
                None => Some((x, x)),
            };
        }
        i += 1;
    }
    assert(raws@.take(i as int) =~= raws@);
    r
}

fn norm_of(x: i128, b: Option<(i128, i128)>) -> (r: i128)
    requires
        b is Some,
        small((b->0).0) && small((b->0).1),
        (b->0).0 <= x <= (b->0).1,
    ensures
        r == normed(x, b),
        0 <= r <= ONE,
{
    match b {
        Some(s) => {
            if s.0 == s.1 {
                ONE as i128
            } else {
                let d: i128 = x - s.0;
                let w: i128 = s.1 - s.0;
                proof {
                    assert(0 <= d * 1_000_000 <= w * 1_000_000) by (nonlinear_arith)
                        requires
                            0 <= d <= w,
                    ;
                    assert(0 <= (d * 1_000_000) / (w as int) <= 1_000_000) by (nonlinear_arith)
                        requires
                            0 <= d * 1_000_000 <= w * 1_000_000,
                            w > 0,
                    ;
                }
                d * 1_000_000 / w
            }
        },
        None => ONE as i128,
    }
}

fn clamp(x: i128) -> (r: MetaValue)
    ensures
        r@ == clamped(x as int),
{
    MetaValue::Micros(
        if x > i64::MAX as i128 {
            i64::MAX
        } else if x < i64::MIN as i128 {
            i64::MIN
        } else {
            x as i64
        },
    )
}

fn weigh(w: i64, n: i128) -> (r: i128)
    requires
        0 <= n <= ONE,
    ensures
        r == w * n,
        -1_000_000 * magnitude(w) <= r <= 1_000_000 * magnitude(w),
{
    proof {
        let m = magnitude(w);
        assert(-1_000_000 * m <= w * n <= 1_000_000 * m) by (nonlinear_arith)
            requires
                -m <= w <= m,
                0 <= n <= 1_000_000,
        ;
    }
    w as i128 * n
}

/// Division by a million that rounds down.
fn per_million(x: i128) -> (r: i128)
    requires
        small(x),
    ensures
        r == x as int / 1_000_000,
{
    if x >= 0 {
        x / 1_000_000
    } else {
        let n: i128 = 999_999 - x;
        let p: i128 = n / 1_000_000;
        assert(-(p as int) == x as int / 1_000_000) by (nonlinear_arith)
            requires
                p == n as int / 1_000_000,
                n == 999_999 - x,
                x < 0,
        ;
        -p
    }
}

fn count_known(raws: &Vec<Option<RawScores>>) -> (n: usize)
    ensures
        n == known_count(raws@),
{
    let mut n: usize = 0;
    let mut i: usize = 0;
    while i < raws.len()
        invariant
            i <= raws@.len(),
            n <= i,
            n == known_count(raws@.take(i as int)),
        decreases raws@.len() - i,
    {
        assert(raws@.take(i + 1).drop_last() =~= raws@.take(i as int));
        assert(raws@.take(i + 1).last() == raws@[i as int]);
        if raws[i].is_some() {
            n += 1;
        }
        i += 1;
    }
    assert(raws@.take(i as int) =~= raws@);
    n
}

/// The spreads of the five components.
struct Spreads {
    relevance: Option<(i128, i128)>,
    recency: Option<(i128, i128)>,
    importance: Option<(i128, i128)>,
    hook: Option<(i128, i128)>,
    need: Option<(i128, i128)>,
}

/// The component lies in its spread.
spec fn within(x: i128, b: Option<(i128, i128)>) -> bool {
    b is Some && small((b->0).0) && small((b->0).1) && (b->0).0 <= x <= (b->0).1
}

fn attach_one(
    h: &RetrievalHit,
    m: &MemoryItem,
    r: &RawScores,
    b: &Spreads,
    Ghost(raws): Ghost<Seq<Option<RawScores>>>,
    n: usize,
    w: &RetrievalWeights,
) -> (out: RetrievalHit)
    requires
        usable(*w),
        small_scores(*r),
        n <= i64::MAX,
        n == known_count(raws),
        b.relevance == spread(raws, 0) && within(r.relevance, b.relevance),
        b.recency == spread(raws, 1) && within(r.recency, b.recency),
        b.importance == spread(raws, 2) && within(r.importance, b.importance),
        b.hook == spread(raws, 3) && within(r.hook, b.hook),
        b.need == spread(raws, 4) && within(r.need, b.need),
    ensures
        out@ == (RetrievalView {
            item: ItemView {
                metadata: scored_metadata(
                    m@,
                    h.bm25_score,
                    h.vector_score,
                    *r,
                    raws,
                    *w,
                    known_count(raws),
                ),
                ..m@
            },
            fused_score: final_score(*r, raws, *w) as i64,
            result_type: layer_for(m@.memory_type, m@.episode_id is Some),
            ..h@
        }),
{
    let rel: i128 = norm_of(r.relevance, b.relevance);
    let rec: i128 = norm_of(r.recency, b.recency);
    let imp: i128 = norm_of(r.importance, b.importance);
    let hook: i128 = norm_of(r.hook, b.hook);
    let need: i128 = norm_of(r.need, b.need);
    let total: i128 = weigh(w.recency, rec) + weigh(w.relevance, rel) + weigh(w.importance, imp)
        + weigh(w.hook_boost, hook) + weigh(w.need_sim, need);
    assert(total == final_score(*r, raws, *w));
    let mut item = m.clone();
    item.metadata.insert("bm25_score", MetaValue::Micros(h.bm25_score));
    item.metadata.insert("vector_similarity", MetaValue::Micros(h.vector_score));
    item.metadata.insert("fused_score", clamp(per_million(total)));
    item.metadata.insert("recency_score", clamp(r.recency));
    item.metadata.insert("relevance_score", clamp(per_million(r.relevance)));
    item.metadata.insert("importance_score", clamp(r.importance));
    item.metadata.insert("hook_boost_score", clamp(r.hook));
    item.metadata.insert("need_sim_score", clamp(r.need));
    item.metadata.insert("norm_recency", clamp(rec));
    item.metadata.insert("norm_relevance", clamp(rel));
    item.metadata.insert("norm_importance", clamp(imp));
    item.metadata.insert("norm_hook_boost", clamp(hook));
    item.metadata.insert("norm_need_sim", clamp(need));
    let sem: i64 = semantic_type_boost(m.semantic_type());
    let src: i64 = knowledge_source_boost(&m.metadata);
    item.metadata.insert("semantic_boost", clamp(sem as i128 * 10_000));
    item.metadata.insert("knowledge_source_boost", clamp(src as i128 * 10_000));
    item.metadata.insert("normalize_n", MetaValue::Int(n as i64));
    RetrievalHit {
        item,
        bm25_score: h.bm25_score,
        vector_score: h.vector_score,
        graph_score: h.graph_score,
        fused_score: total as i64,
        result_type: RetrievalResultType::from_memory_item(
            m.memory_type.as_str(),
            &m.episode_id,
        ),
    }
}

/// Copies of the results in the order of their scores.
fn sort_results(hits: &Vec<RetrievalHit>) -> (out: Vec<RetrievalHit>)
    ensures
        result_views(out@) == ranked(
            result_views(hits@),
            result_views(hits@).map_values(|h: RetrievalView| h.fused_score as i128),
            hits@.len() as int,
        ),
{
    let ghost all = result_views(hits@);
    let ghost keys_of = all.map_values(|h: RetrievalView| h.fused_score as i128);
    let mut keys: Vec<i128> = Vec::new();
    let mut i: usize = 0;
    while i < hits.len()
        invariant
            i <= hits@.len(),
            all == result_views(hits@),
            keys_of == all.map_values(|h: RetrievalView| h.fused_score as i128),
            keys@ == keys_of.take(i as int),
        decreases hits@.len() - i,
    {
        keys.push(hits[i].fused_score as i128);
        i += 1;
        assert(all[i - 1] == hits@[i - 1]@);
        assert(keys_of.take(i as int) =~= keys_of.take(i - 1).push(keys_of[i - 1]));
    }
    assert(keys_of.take(i as int) =~= keys_of);
    let p = order_desc(&keys);
    proof {
        order_sorts(keys_of);
    }
    let ghost want = ranked(all, keys_of, all.len() as int);
    let mut out: Vec<RetrievalHit> = Vec::new();
    let mut j: usize = 0;
    while j < p.len()
        invariant
            j <= p@.len(),
            p@.len() == hits@.len(),
            all == result_views(hits@),
            want == ranked(all, keys_of, all.len() as int),
            want.len() == p@.len(),
            positions(p@) == order_of(keys_of),
            forall|x: int| 0 <= x < p@.len() ==> (#[trigger] p@[x]) < hits@.len(),
            out@.len() == j,
            forall|k: int| 0 <= k < j ==> (#[trigger] out@[k])@ == want[k],
        decreases p@.len() - j,
    {
        let at: usize = p[j];
        assert(positions(p@)[j as int] == at as int);
        assert(all[at as int] == hits@[at as int]@);
        out.push(hits[at].clone());
        assert(out@[j as int]@ == want[j as int]);
        j += 1;
    }
    assert(result_views(out@) =~= want);
    out
}

/// The results with their memories and scores, best first, given the words of the
/// query and of every memory.
pub fn attach_items_with_words(
    hits: &Vec<RetrievalHit>,
    entries: &[MemoryItem],
    factors: &Vec<HitFactors>,
    weights: RetrievalWeights,
    query_words: &Vec<String>,
    words: &Vec<Vec<String>>,
) -> (out: Vec<RetrievalHit>)
    requires
        usable(weights),
        hits@.len() == factors@.len(),
        hits@.len() <= i64::MAX,
        entries@.len() == words@.len(),
    ensures
        result_views(out@) == attached(
            result_views(hits@),
            item_views(entries@),
            factors@,
            weights,
            texts(query_words@),
            crate::tokens::word_lists(words@),
        ),
        forall|i: int, j: int|
            0 <= i < j < out@.len() ==> (#[trigger] out@[i]).fused_score >= (#[trigger] out@[j]).fused_score,
        forall|i: int|
            0 <= i < out@.len() && weights.min_score > 0 ==> (#[trigger] out@[i]).fused_score
                >= weights.min_score * 1_000_000,
{
    let ghost hv = result_views(hits@);
    let ghost ev = item_views(entries@);
    let ghost qw = texts(query_words@);
    let ghost wl = crate::tokens::word_lists(words@);
    let ghost want_raws = raw_list(hv, ev, factors@, qw, wl);
    let mut raws: Vec<Option<RawScores>> = Vec::new();
    let mut found: Vec<Option<usize>> = Vec::new();
    let mut i: usize = 0;
    while i < hits.len()
        invariant
            i <= hits@.len(),
            hits@.len() == factors@.len(),
            entries@.len() == words@.len(),
            hv == result_views(hits@),
            ev == item_views(entries@),
            qw == texts(query_words@),
            wl == crate::tokens::word_lists(words@),
            want_raws == raw_list(hv, ev, factors@, qw, wl),
            raws@ == want_raws.take(i as int),
            found@.len() == i,
            forall|k: int| 0 <= k < i && (#[trigger] raws@[k]) is Some ==> small_scores(raws@[k]->0),
            forall|k: int|
                0 <= k < i ==> match #[trigger] found@[k] {
                    Some(at) => at < entries@.len() && last_with_id(ev, hv[k].item.id) == Some(
                        at as int,
                    ) && raws@[k] is Some,
                    None => last_with_id(ev, hv[k].item.id) is None,
                },
        decreases hits@.len() - i,
    {
        assert(hv[i as int] == hits@[i as int]@);
        let at = position_by_id(entries, hits[i].item.id.as_str());
        let raw = match at {
            Some(k) => {
                assert(ev[k as int] == entries@[k as int]@);
                assert(wl[k as int] == texts(words@[k as int]@));
                Some(
                    score_raw(
                        hits[i].fused_score,
                        &entries[k],
                        factors[i],
                        query_words,
                        &words[k],
                    ),
                )
            },
            None => None,
        };
        let ghost before = raws@;
        raws.push(raw);
        found.push(at);
        i += 1;
        proof {
            assert(want_raws.take(i as int) =~= want_raws.take(i - 1).push(want_raws[i - 1]));
            assert(raw == want_raws[i - 1]);
            assert forall|k: int| 0 <= k < i && (#[trigger] raws@[k]) is Some implies small_scores(
                raws@[k]->0,
            ) by {
                if k < i - 1 {
                    assert(raws@[k] == before[k]);
                }
            }
            assert forall|k: int| 0 <= k < i implies match #[trigger] found@[k] {
                Some(at) => at < entries@.len() && last_with_id(ev, hv[k].item.id) == Some(
                    at as int,
                ) && raws@[k] is Some,
                None => last_with_id(ev, hv[k].item.id) is None,
            } by {
                if k < i - 1 {
                    assert(raws@[k] == before[k]);
                }
            }
        }
    }
    assert(want_raws.take(i as int) =~= want_raws);
    let b = Spreads {
        relevance: find_spread(&raws, 0),
        recency: find_spread(&raws, 1),
        importance: find_spread(&raws, 2),
        hook: find_spread(&raws, 3),
        need: find_spread(&raws, 4),
    };
    let n: usize = count_known(&raws);
    proof {
        lemma_known_count(raws@);
    }
    let ghost all = Seq::new(
        hv.len(),
        |k: int| attached_hit(hv[k], ev, want_raws[k], want_raws, weights),
    );
    let mut list: Vec<RetrievalHit> = Vec::new();
    let mut flags: Vec<bool> = Vec::new();
    let mut j: usize = 0;
    while j < hits.len()
        invariant
            j <= hits@.len(),
            usable(weights),
            hv == result_views(hits@),
            ev == item_views(entries@),
            raws@ == want_raws,
            raws@.len() == hits@.len(),
            found@.len() == hits@.len(),
            n == known_count(raws@),
            n <= i64::MAX,
            all == Seq::new(
                hv.len(),
                |k: int| attached_hit(hv[k], ev, want_raws[k], want_raws, weights),
            ),
            forall|k: int|
                0 <= k < raws@.len() && (#[trigger] raws@[k]) is Some ==> small_scores(raws@[k]->0),
            forall|k: int|
                0 <= k < hits@.len() ==> match #[trigger] found@[k] {
                    Some(at) => at < entries@.len() && last_with_id(ev, hv[k].item.id) == Some(
                        at as int,
                    ) && raws@[k] is Some,
                    None => last_with_id(ev, hv[k].item.id) is None,
                },
            b.relevance == spread(raws@, 0),
            b.recency == spread(raws@, 1),
            b.importance == spread(raws@, 2),
            b.hook == spread(raws@, 3),
            b.need == spread(raws@, 4),
            forall|k: int|
                0 <= k < raws@.len() && (#[trigger] raws@[k]) is Some ==> within(
                    (raws@[k]->0).relevance,
                    b.relevance,
                ) && within((raws@[k]->0).recency, b.recency) && within(
                    (raws@[k]->0).importance,
                    b.importance,
                ) && within((raws@[k]->0).hook, b.hook) && within((raws@[k]->0).need, b.need),
            list@.len() == j,
            flags@.len() == j,
            forall|k: int| 0 <= k < j ==> (#[trigger] list@[k])@ == all[k],
            forall|k: int| 0 <= k < j ==> #[trigger] flags@[k] == is_shown(all[k], weights),
        decreases hits@.len() - j,
    {
        assert(hv[j as int] == hits@[j as int]@);
        assert(match found@[j as int] {
            Some(at) => at < entries@.len() && last_with_id(ev, hv[j as int].item.id) == Some(
                at as int,
            ) && raws@[j as int] is Some,
            None => last_with_id(ev, hv[j as int].item.id) is None,
        });
        let h = match (found[j], &raws[j]) {
            (Some(at), Some(r)) => {
                assert(raws@[j as int] is Some);
                assert(ev[at as int] == entries@[at as int]@);
                attach_one(&hits[j], &entries[at], r, &b, Ghost(raws@), n, &weights)
            },
            _ => hits[j].clone(),
        };
        assert(h@ == all[j as int]);
        let filled = !h.item.content.as_str().is_empty();
        let reaches = weights.min_score <= 0 || h.fused_score as i128 >= weights.min_score as i128
            * 1_000_000;
        flags.push(filled && reaches);
        list.push(h);
        j += 1;
    }
    let ghost raw_hits = list@;
    let kept_hits = take_flagged(list, &flags);
    proof {
        assert(result_views(raw_hits) =~= all);
        kept_map(raw_hits, flags@, |h: RetrievalHit| h@);
        kept_is_filter(all, flags@, |h: RetrievalView| is_shown(h, weights));
        assert(result_views(kept_hits@) == all.filter(|h: RetrievalView| is_shown(h, weights)));
        crate::retrieval_laws::results_come_by_score(hv, ev, factors@, weights, qw, wl);
    }
    let out = sort_results(&kept_hits);
    assert forall|i: int| 0 <= i < out@.len() implies result_views(out@)[i] == (#[trigger] out@[i])@ by {}
    out
}

proof fn lemma_known_count(raws: Seq<Option<RawScores>>)
    ensures
        known_count(raws) <= raws.len(),
    decreases raws.len(),
{
    if raws.len() > 0 {
        lemma_known_count(raws.drop_last());
    }
}

fn contents_of(entries: &[MemoryItem]) -> (out: Vec<String>)
    ensures
        out@.len() == entries@.len(),
        forall|i: int| 0 <= i < out@.len() ==> (#[trigger] out@[i])@ == entries@[i]@.content,
{
    let mut out: Vec<String> = Vec::new();
    let mut i: usize = 0;
    while i < entries.len()
        invariant
            i <= entries@.len(),
            out@.len() == i,
            forall|k: int| 0 <= k < i ==> (#[trigger] out@[k])@ == entries@[k]@.content,
        decreases entries@.len() - i,
    {
        out.push(entries[i].content.clone());
        i += 1;
    }
    out
}

/// The words of the contents of memories.
pub open spec fn content_words(entries: Seq<ItemView>) -> Seq<Seq<Seq<char>>> {
    entries.map_values(|m: ItemView| words_of(m.content))
}

fn words_of_contents(entries: &[MemoryItem]) -> (words: Vec<Vec<String>>)
    ensures
        crate::tokens::word_lists(words@) == content_words(item_views(entries@)),
{
    let contents = contents_of(entries);
    let words = words_of_all(&contents);
    proof {
        assert forall|i: int| 0 <= i < words@.len() implies #[trigger] crate::tokens::word_lists(
            words@,
        )[i] == content_words(item_views(entries@))[i] by {
            assert(texts(words@[i]@) == words_of(contents@[i]@));
        }
        assert(crate::tokens::word_lists(words@) =~= content_words(item_views(entries@)));
    }
    words
}

/// The results with their memories and scores, best first. `factors` say what the
/// clock makes of each result.
pub fn attach_items_with_weights(
    hits: &Vec<RetrievalHit>,
    entries: &[MemoryItem],
    factors: &Vec<HitFactors>,
    weights: RetrievalWeights,
    query: &str,
) -> (out: Vec<RetrievalHit>)
    requires
        usable(weights),
        hits@.len() == factors@.len(),
        hits@.len() <= i64::MAX,
    ensures
        result_views(out@) == attached(
            result_views(hits@),
            item_views(entries@),
            factors@,
            weights,
            words_of(query@),
            content_words(item_views(entries@)),
        ),
        forall|i: int, j: int|
            0 <= i < j < out@.len() ==> (#[trigger] out@[i]).fused_score >= (#[trigger] out@[j]).fused_score,
        forall|i: int|
            0 <= i < out@.len() && weights.min_score > 0 ==> (#[trigger] out@[i]).fused_score
                >= weights.min_score * 1_000_000,
{
    let query_words = words_of_text(query);
    let words = words_of_contents(entries);
    assert(crate::tokens::word_lists(words@).len() == words@.len());
    attach_items_with_words(hits, entries, factors, weights, &query_words, &words)
}

/// The results with their memories and scores by the standard weights.
pub fn attach_items(
    hits: &Vec<RetrievalHit>,
    entries: &[MemoryItem],
    factors: &Vec<HitFactors>,
    query: &str,
) -> (out: Vec<RetrievalHit>)
    requires
        hits@.len() == factors@.len(),
        hits@.len() <= i64::MAX,
    ensures
        result_views(out@) == attached(
            result_views(hits@),
            item_views(entries@),
            factors@,
            RetrievalWeights {
                recency: 250_000,
                relevance: 400_000,
                importance: 150_000,
                hook_boost: 100_000,
                need_sim: 100_000,
                recency_tau: 86_400_000,
                min_score: 150_000,
            },
            words_of(query@),
            content_words(item_views(entries@)),
        ),
{
    attach_items_with_weights(hits, entries, factors, RetrievalWeights::default(), query)
}

/// A single result whose memory is known is shown by the standard weights: it is the
/// best there is.
pub proof fn single_result_counts_in_full(r: RawScores, w: RetrievalWeights)
    ensures
        final_score(r, seq![Some(r)], w) == (w.recency + w.relevance + w.importance + w.hook_boost
            + w.need_sim) * ONE,
{
    let raws = seq![Some(r)];
    reveal_with_fuel(spread, 2);
    assert(raws.drop_last() =~= Seq::<Option<RawScores>>::empty());
    assert(spread(raws, 0) == Some((r.relevance, r.relevance)));
    assert(spread(raws, 1) == Some((r.recency, r.recency)));
    assert(spread(raws, 2) == Some((r.importance, r.importance)));
    assert(spread(raws, 3) == Some((r.hook, r.hook)));
    assert(spread(raws, 4) == Some((r.need, r.need)));
    assert((w.recency + w.relevance + w.importance + w.hook_boost + w.need_sim) * ONE == w.recency
        * ONE + w.relevance * ONE + w.importance * ONE + w.hook_boost * ONE + w.need_sim * ONE)
        by (nonlinear_arith);
}

// ---------------------------------------------------------------------------
// Neighbours in the conversation
// ---------------------------------------------------------------------------

/// The position of the last raw memory with that number.
pub open spec fn raw_with_number(entries: Seq<ItemView>, n: u64) -> Option<int>
    decreases entries.len(),
{
    if entries.len() == 0 {
        None
    } else if layer_of(entries.last().granularity) == "raw"@ && count_at(
        entries.last().metadata,
        "seq_no"@,
    ) == Some(n) {
        Some(entries.len() - 1)
    } else {
        raw_with_number(entries.drop_last(), n)
    }
}

/// Whether a memory with that identifier is listed.
pub open spec fn listed(s: Seq<ItemView>, id: Seq<char>) -> bool {
    exists|i: int| 0 <= i < s.len() && (#[trigger] s[i]).id == id
}

/// The memory, marked as a neighbour.
pub open spec fn neighbour(m: ItemView) -> ItemView {
    ItemView { metadata: m.metadata.insert("expansion"@, MetaView::Bool(true)), ..m }
}

/// The list with the raw memory of that number, where there is room, there is one and
/// it is not listed.
pub open spec fn with_number(s: Seq<ItemView>, entries: Seq<ItemView>, n: u64, room: int) -> Seq<ItemView> {
    match raw_with_number(entries, n) {
        Some(i) => if s.len() < room && !listed(s, entries[i].id) {
            s.push(neighbour(entries[i]))
        } else {
            s
        },
        None => s,
    }
}

/// The number after; the first follows the last.
pub open spec fn number_after(n: u64) -> u64 {
    if n < u64::MAX {
        (n + 1) as u64
    } else {
        0
    }
}

/// The number before; the last stands before the first.
pub open spec fn number_before(n: u64) -> u64 {
    if n > 0 {
        (n - 1) as u64
    } else {
        u64::MAX
    }
}

/// The memories without those whose identifier an earlier one has.
pub open spec fn distinct_ids(s: Seq<ItemView>) -> Seq<ItemView>
    decreases s.len(),
{
    if s.len() == 0 {
        s
    } else {
        let rest = distinct_ids(s.drop_last());
        if listed(rest, s.last().id) {
            rest
        } else {
            rest.push(s.last())
        }
    }
}

/// The results, each once, and behind them their neighbours: at most `max` of each result.
pub open spec fn with_neighbours(hits: Seq<ItemView>, entries: Seq<ItemView>, max: int) -> Seq<ItemView> {
    let once = distinct_ids(hits);
    expanded(once, entries, max, once.len())
}

/// The results and the neighbours of the first `n` of them: of each the one after, then
/// the one before, at most `max`.
pub open spec fn expanded(hits: Seq<ItemView>, entries: Seq<ItemView>, max: int, n: nat) -> Seq<ItemView>
    decreases n,
{
    if n == 0 {
        hits
    } else {
        let s = expanded(hits, entries, max, (n - 1) as nat);
        match count_at(hits[n - 1].metadata, "seq_no"@) {
            Some(k) => with_number(
                with_number(s, entries, number_after(k), s.len() + max),
                entries,
                number_before(k),
                s.len() + max,
            ),
            None => s,
        }
    }
}

fn find_number(entries: &[MemoryItem], n: u64) -> (r: Option<usize>)
    ensures
        match r {
            Some(i) => raw_with_number(item_views(entries@), n) == Some(i as int) && i
                < entries@.len(),
            None => raw_with_number(item_views(entries@), n) is None,
        },
{
    let ghost all = item_views(entries@);
    let mut i: usize = entries.len();
    assert(all.take(i as int) =~= all);
    while i > 0
        invariant
            i <= entries@.len(),
            all == item_views(entries@),
            raw_with_number(all.take(i as int), n) == raw_with_number(all, n),
        decreases i,
    {
        assert(all.take(i as int).drop_last() =~= all.take(i - 1));
        assert(all.take(i as int).last() == entries@[i - 1]@);
        if same(entries[i - 1].source_layer(), "raw") {
            if let Some(k) = entries[i - 1].seq_no() {
                if k == n {
                    return Some(i - 1);
                }
            }
        }
        i -= 1;
    }
    None
}

fn is_listed(s: &Vec<MemoryItem>, id: &str) -> (r: bool)
    ensures
        r == listed(item_views(s@), id@),
{
    let ghost all = item_views(s@);
    let mut i: usize = 0;
    while i < s.len()
        invariant
            i <= s@.len(),
            all == item_views(s@),
            forall|k: int| 0 <= k < i ==> (#[trigger] all[k]).id != id@,
        decreases s@.len() - i,
    {
        assert(all[i as int] == s@[i as int]@);
        if same(s[i].id.as_str(), id) {
            return true;
        }
        i += 1;
    }
    false
}

fn add_number(list: &mut Vec<MemoryItem>, entries: &[MemoryItem], n: u64, added: usize, max: usize) -> (r: usize)
    requires
        added <= max,
        added <= old(list)@.len(),
    ensures
        item_views(final(list)@) == with_number(
            item_views(old(list)@),
            item_views(entries@),
            n,
            old(list)@.len() - added + max,
        ),
        r <= max,
        final(list)@.len() - r == old(list)@.len() - added,
{
    let ghost was = item_views(list@);
    if added >= max {
        return added;
    }
    if let Some(at) = find_number(entries, n) {
        assert(item_views(entries@)[at as int] == entries@[at as int]@);
        if !is_listed(list, entries[at].id.as_str()) {
            let mut m = entries[at].clone();
            m.metadata.insert("expansion", MetaValue::Bool(true));
            let ghost mv = m@;
            list.push(m);
            assert(item_views(list@) =~= was.push(mv));
            return added + 1;
        }
    }
    added
}

fn drop_repeated_ids(hits: Vec<MemoryItem>) -> (out: Vec<MemoryItem>)
    ensures
        item_views(out@) == distinct_ids(item_views(hits@)),
{
    let ghost all = item_views(hits@);
    let mut out: Vec<MemoryItem> = Vec::new();
    let mut i: usize = 0;
    assert(item_views(out@) =~= distinct_ids(all.take(0)));
    while i < hits.len()
        invariant
            i <= hits@.len(),
            all == item_views(hits@),
            item_views(out@) == distinct_ids(all.take(i as int)),
        decreases hits@.len() - i,
    {
        proof {
            assert(all.take(i + 1).drop_last() =~= all.take(i as int));
            assert(all.take(i + 1).last() == hits@[i as int]@);
        }
        if !is_listed(&out, hits[i].id.as_str()) {
            let ghost prev = item_views(out@);
            out.push(hits[i].clone());
            assert(item_views(out@) =~= prev.push(hits@[i as int]@));
        }
        i += 1;
    }
    assert(all.take(i as int) =~= all);
    out
}

/// The results, each once, and behind them raw messages that stand next to a result in the
/// conversation, at most `max_expansion` for each result.
pub fn expand_context(hits: Vec<MemoryItem>, all_entries: &[MemoryItem], max_expansion: usize) -> (out: Vec<
    MemoryItem,
>)
    ensures
        item_views(out@) == with_neighbours(
            item_views(hits@),
            item_views(all_entries@),
            max_expansion as int,
        ),
{
    let hits = drop_repeated_ids(hits);
    let ghost first = item_views(hits@);
    let ghost ev = item_views(all_entries@);
    let mut numbers: Vec<Option<u64>> = Vec::new();
    let mut k: usize = 0;
    while k < hits.len()
        invariant
            k <= hits@.len(),
            first == item_views(hits@),
            numbers@.len() == k,
            forall|j: int|
                0 <= j < k ==> #[trigger] numbers@[j] == count_at(first[j].metadata, "seq_no"@),
        decreases hits@.len() - k,
    {
        assert(first[k as int] == hits@[k as int]@);
        numbers.push(hits[k].seq_no());
        k += 1;
    }
    let total: usize = hits.len();
    let mut list = hits;
    let mut i: usize = 0;
    while i < total
        invariant
            i <= total,
            total == first.len(),
            numbers@.len() == total,
            ev == item_views(all_entries@),
            forall|j: int|
                0 <= j < total ==> #[trigger] numbers@[j] == count_at(
                    first[j].metadata,
                    "seq_no"@,
                ),
            item_views(list@) == expanded(first, ev, max_expansion as int, i as nat),
        decreases total - i,
    {
        assert(numbers@[i as int] == count_at(first[i as int].metadata, "seq_no"@));
        if let Some(n) = numbers[i] {
            let after: u64 = if n < u64::MAX {
                n + 1
            } else {
                0
            };
            let before: u64 = if n > 0 {
                n - 1
            } else {
                u64::MAX
            };
            assert(item_views(list@).len() == list@.len());
            let added: usize = add_number(&mut list, all_entries, after, 0, max_expansion);
            let _ = add_number(&mut list, all_entries, before, added, max_expansion);
        }
        i += 1;
    }
    list
}

/// The results stay in front as they are; behind them at most `max` memories follow for each
/// result, and never more than two.
pub proof fn expansion_only_adds(hits: Seq<ItemView>, entries: Seq<ItemView>, max: int, n: nat)
    requires
        n <= hits.len(),
        0 <= max,
    ensures
        hits.len() <= expanded(hits, entries, max, n).len() <= hits.len() + 2 * n,
        expanded(hits, entries, max, n).len() <= hits.len() + n * max,
        expanded(hits, entries, max, n).take(hits.len() as int) == hits,
    decreases n,
{
    if n == 0 {
        assert(hits.take(hits.len() as int) =~= hits);
    } else {
        expansion_only_adds(hits, entries, max, (n - 1) as nat);
        let s = expanded(hits, entries, max, (n - 1) as nat);
        assert(n * max == (n - 1) * max + max) by (nonlinear_arith);
        match count_at(hits[n - 1].metadata, "seq_no"@) {
            Some(k) => {
                let t = with_number(s, entries, number_after(k), s.len() + max);
                assert(t.take(hits.len() as int) =~= s.take(hits.len() as int));
                let u = with_number(t, entries, number_before(k), s.len() + max);
                assert(u.take(hits.len() as int) =~= t.take(hits.len() as int));
            },
            None => {},
        }
    }
}

/// No two memories of the list have the same identifier.
pub open spec fn ids_differ(s: Seq<ItemView>) -> bool {
    forall|i: int, j: int| 0 <= i < j < s.len() ==> (#[trigger] s[i]).id != (#[trigger] s[j]).id
}

proof fn lemma_ids_push(s: Seq<ItemView>, m: ItemView)
    requires
        ids_differ(s),
        !listed(s, m.id),
    ensures
        ids_differ(s.push(m)),
{
    let t = s.push(m);
    assert forall|i: int, j: int| 0 <= i < j < t.len() implies (#[trigger] t[i]).id != (#[trigger] t[j]).id by {
        assert(t[i] == s[i]);
        if j < s.len() {
            assert(t[j] == s[j]);
        }
    }
}

proof fn lemma_distinct_ids(s: Seq<ItemView>)
    ensures
        ids_differ(distinct_ids(s)),
    decreases s.len(),
{
    if s.len() > 0 {
        lemma_distinct_ids(s.drop_last());
        let rest = distinct_ids(s.drop_last());
        if !listed(rest, s.last().id) {
            lemma_ids_push(rest, s.last());
        }
    }
}

proof fn lemma_expanded_ids(hits: Seq<ItemView>, entries: Seq<ItemView>, max: int, n: nat)
    requires
        ids_differ(hits),
    ensures
        ids_differ(expanded(hits, entries, max, n)),
    decreases n,
{
    if n > 0 {
        lemma_expanded_ids(hits, entries, max, (n - 1) as nat);
        let s = expanded(hits, entries, max, (n - 1) as nat);
        match count_at(hits[n - 1].metadata, "seq_no"@) {
            Some(k) => {
                let room = s.len() + max;
                lemma_number_ids(s, entries, number_after(k), room);
                let t = with_number(s, entries, number_after(k), room);
                lemma_number_ids(t, entries, number_before(k), room);
            },
            None => {},
        }
    }
}

proof fn lemma_number_ids(s: Seq<ItemView>, entries: Seq<ItemView>, n: u64, room: int)
    requires
        ids_differ(s),
    ensures
        ids_differ(with_number(s, entries, n, room)),
{
    match raw_with_number(entries, n) {
        Some(i) => {
            if s.len() < room && !listed(s, entries[i].id) {
                lemma_ids_push(s, neighbour(entries[i]));
            }
        },
        None => {},
    }
}

/// Nothing is given twice: neither a result nor a neighbour.
pub proof fn expansion_repeats_nothing(hits: Seq<ItemView>, entries: Seq<ItemView>, max: int)
    ensures
        ids_differ(with_neighbours(hits, entries, max)),
{
    lemma_distinct_ids(hits);
    let once = distinct_ids(hits);
    lemma_expanded_ids(once, entries, max, once.len());
}

// ---------------------------------------------------------------------------
// Memories that mean the same
// ---------------------------------------------------------------------------

/// The labels after the groups of `a` and `b` became one.
pub open spec fn joined(labels: Seq<int>, a: int, b: int) -> Seq<int> {
    let x = labels[a];
    let y = labels[b];
    labels.map_values(
        |l: int|
            if l == x {
                y
            } else {
                l
            },
    )
}

/// The labels after memory `i` was compared with the later ones before `j`.
pub open spec fn row_labels(similar: Seq<Seq<bool>>, labels: Seq<int>, i: int, j: nat) -> Seq<int>
    decreases j,
{
    if j == 0 || j <= i + 1 {
        labels
    } else {
        let l = row_labels(similar, labels, i, (j - 1) as nat);
        if similar[i][j - 1] {
            joined(l, i, j - 1)
        } else {
            l
        }
    }
}

/// The labels after the first `i` of `n` memories were compared with all later ones.
pub open spec fn group_labels(similar: Seq<Seq<bool>>, n: nat, i: nat) -> Seq<int>
    decreases i,
{
    if i == 0 {
        Seq::new(n, |k: int| k)
    } else {
        row_labels(similar, group_labels(similar, n, (i - 1) as nat), i - 1, n)
    }
}

/// Whether the memory is the best of its group, the first of equals.
pub open spec fn best_in_group(labels: Seq<int>, scores: Seq<i128>, i: int) -> bool {
    forall|j: int|
        0 <= j < labels.len() && labels[j] == labels[i] && j != i ==> (#[trigger] scores[j])
            < scores[i] || (scores[j] == scores[i] && i < j)
}

proof fn lemma_row_len(similar: Seq<Seq<bool>>, labels: Seq<int>, i: int, j: nat)
    ensures
        row_labels(similar, labels, i, j).len() == labels.len(),
    decreases j,
{
    if j > 0 && j > i + 1 {
        lemma_row_len(similar, labels, i, (j - 1) as nat);
    }
}

pub(crate) proof fn lemma_group_len(similar: Seq<Seq<bool>>, n: nat, i: nat)
    ensures
        group_labels(similar, n, i).len() == n,
    decreases i,
{
    if i > 0 {
        lemma_group_len(similar, n, (i - 1) as nat);
        lemma_row_len(similar, group_labels(similar, n, (i - 1) as nat), i - 1, n);
    }
}

proof fn lemma_row_keeps(similar: Seq<Seq<bool>>, labels: Seq<int>, i: int, j: nat, a: int, b: int)
    requires
        0 <= a < labels.len(),
        0 <= b < labels.len(),
        0 <= i < labels.len(),
        j <= labels.len(),
        labels[a] == labels[b],
    ensures
        row_labels(similar, labels, i, j)[a] == row_labels(similar, labels, i, j)[b],
    decreases j,
{
    lemma_row_len(similar, labels, i, j);
    if j > i + 1 {
        lemma_row_len(similar, labels, i, (j - 1) as nat);
        lemma_row_keeps(similar, labels, i, (j - 1) as nat, a, b);
    }
}

proof fn lemma_row_joins(similar: Seq<Seq<bool>>, labels: Seq<int>, i: int, j: nat, k: int)
    requires
        0 <= i < k < j <= labels.len(),
        similar[i][k],
    ensures
        row_labels(similar, labels, i, j)[i] == row_labels(similar, labels, i, j)[k],
    decreases j,
{
    lemma_row_len(similar, labels, i, (j - 1) as nat);
    let l = row_labels(similar, labels, i, (j - 1) as nat);
    if k == j - 1 {
        let x = l[i];
        let y = l[k];
        assert(joined(l, i, k)[i] == y);
        assert(joined(l, i, k)[k] == y);
    } else {
        lemma_row_joins(similar, labels, i, (j - 1) as nat, k);
    }
}

/// Similar memories are in one group.
pub proof fn similar_memories_share_a_group(similar: Seq<Seq<bool>>, n: nat, i: nat, a: int, b: int)
    requires
        i <= n,
        0 <= a < b < n,
        a < i,
        similar[a][b],
    ensures
        group_labels(similar, n, i)[a] == group_labels(similar, n, i)[b],
    decreases i,
{
    lemma_group_len(similar, n, (i - 1) as nat);
    let l = group_labels(similar, n, (i - 1) as nat);
    if a == i - 1 {
        lemma_row_joins(similar, l, a, n, b);
    } else {
        similar_memories_share_a_group(similar, n, (i - 1) as nat, a, b);
        lemma_row_keeps(similar, l, i - 1, n, a, b);
    }
}

proof fn lemma_row_minimal(
    similar: Seq<Seq<bool>>,
    labels: Seq<int>,
    i: int,
    j: nat,
    alike: spec_fn(int, int) -> bool,
)
    requires
        0 <= i < labels.len(),
        j <= labels.len(),
        forall|a: int| 0 <= a < labels.len() ==> #[trigger] alike(a, a),
        forall|a: int, b: int| #[trigger] alike(a, b) ==> alike(b, a),
        forall|a: int, b: int, c: int| #[trigger] alike(a, b) && #[trigger] alike(b, c) ==> alike(a, c),
        forall|a: int, b: int| 0 <= a < b < labels.len() && #[trigger] similar[a][b] ==> alike(a, b),
        forall|a: int, b: int|
            0 <= a < labels.len() && 0 <= b < labels.len() && #[trigger] labels[a]
                == #[trigger] labels[b] ==> alike(a, b),
    ensures
        forall|a: int, b: int|
            0 <= a < labels.len() && 0 <= b < labels.len() && #[trigger] row_labels(
                similar,
                labels,
                i,
                j,
            )[a] == #[trigger] row_labels(similar, labels, i, j)[b] ==> alike(a, b),
    decreases j,
{
    if j > i + 1 {
        lemma_row_len(similar, labels, i, (j - 1) as nat);
        lemma_row_minimal(similar, labels, i, (j - 1) as nat, alike);
        let l = row_labels(similar, labels, i, (j - 1) as nat);
        let r = row_labels(similar, labels, i, j);
        let k = j - 1;
        if similar[i][k] {
            assert(alike(i, k));
            assert forall|a: int, b: int|
                0 <= a < labels.len() && 0 <= b < labels.len() && #[trigger] r[a]
                    == #[trigger] r[b] implies alike(a, b) by {
                if l[a] == l[b] {
                } else if l[a] == l[i] {
                    assert(l[b] == l[k]);
                    assert(alike(a, i));
                    assert(alike(b, k));
                    assert(alike(a, k));
                    assert(alike(k, b));
                } else if l[b] == l[i] {
                    assert(l[a] == l[k]);
                    assert(alike(b, i));
                    assert(alike(a, k));
                    assert(alike(k, i));
                    assert(alike(a, i));
                    assert(alike(i, b));
                }
            }
        }
    }
}

/// Memories are in one group only where they are alike: the groups are the finest that
/// keep similar memories together.
pub proof fn groups_are_finest(
    similar: Seq<Seq<bool>>,
    n: nat,
    i: nat,
    alike: spec_fn(int, int) -> bool,
)
    requires
        i <= n,
        forall|a: int| 0 <= a < n ==> #[trigger] alike(a, a),
        forall|a: int, b: int| #[trigger] alike(a, b) ==> alike(b, a),
        forall|a: int, b: int, c: int| #[trigger] alike(a, b) && #[trigger] alike(b, c) ==> alike(a, c),
        forall|a: int, b: int| 0 <= a < b < n && #[trigger] similar[a][b] ==> alike(a, b),
    ensures
        forall|a: int, b: int|
            0 <= a < n && 0 <= b < n && #[trigger] group_labels(similar, n, i)[a]
                == #[trigger] group_labels(similar, n, i)[b] ==> alike(a, b),
    decreases i,
{
    if i > 0 {
        groups_are_finest(similar, n, (i - 1) as nat, alike);
        lemma_group_len(similar, n, (i - 1) as nat);
        lemma_row_minimal(
            similar,
            group_labels(similar, n, (i - 1) as nat),
            i - 1,
            n,
            alike,
        );
    }
}

fn join_labels(labels: &mut Vec<usize>, a: usize, b: usize)
    requires
        a < old(labels)@.len(),
        b < old(labels)@.len(),
    ensures
        positions(final(labels)@) == joined(positions(old(labels)@), a as int, b as int),
{
    let ghost was = positions(labels@);
    let ghost raw = labels@;
    let x: usize = labels[a];
    let y: usize = labels[b];
    let mut i: usize = 0;
    while i < labels.len()
        invariant
            i <= labels@.len(),
            labels@.len() == raw.len(),
            was == positions(raw),
            x == raw[a as int],
            y == raw[b as int],
            forall|k: int|
                0 <= k < i ==> #[trigger] labels@[k] == (if raw[k] == x {
                    y
                } else {
                    raw[k]
                }),
            forall|k: int| i <= k < raw.len() ==> #[trigger] labels@[k] == raw[k],
        decreases labels@.len() - i,
    {
        if labels[i] == x {
            labels.set(i, y);
        }
        i += 1;
    }
    assert(positions(labels@) =~= joined(was, a as int, b as int));
}

fn group_all(similar: &Vec<Vec<bool>>, n: usize) -> (labels: Vec<usize>)
    requires
        similar@.len() == n,
        forall|i: int| 0 <= i < n ==> (#[trigger] similar@[i])@.len() == n,
    ensures
        positions(labels@) == group_labels(similar@.map_values(|r: Vec<bool>| r@), n as nat, n as nat),
        labels@.len() == n,
{
    let ghost sim = similar@.map_values(|r: Vec<bool>| r@);
    let mut labels: Vec<usize> = Vec::new();
    let mut k: usize = 0;
    while k < n
        invariant
            k <= n,
            labels@.len() == k,
            forall|j: int| 0 <= j < k ==> #[trigger] labels@[j] == j,
        decreases n - k,
    {
        labels.push(k);
        k += 1;
    }
    assert(positions(labels@) =~= group_labels(sim, n as nat, 0));
    let mut i: usize = 0;
    while i < n
        invariant
            i <= n,
            labels@.len() == n,
            similar@.len() == n,
            forall|a: int| 0 <= a < n ==> (#[trigger] similar@[a])@.len() == n,
            sim == similar@.map_values(|r: Vec<bool>| r@),
            positions(labels@) == group_labels(sim, n as nat, i as nat),
        decreases n - i,
    {
        let ghost start = positions(labels@);
        assert(sim[i as int] == similar@[i as int]@);
        let mut j: usize = i + 1;
        while j < n
            invariant
                i < j <= n,
                labels@.len() == n,
                similar@.len() == n,
                forall|a: int| 0 <= a < n ==> (#[trigger] similar@[a])@.len() == n,
                sim[i as int] == similar@[i as int]@,
                positions(labels@) == row_labels(sim, start, i as int, j as nat),
            decreases n - j,
        {
            if similar[i][j] {
                join_labels(&mut labels, i, j);
                assert(positions(labels@).len() == labels@.len());
                proof {
                    lemma_row_len(sim, start, i as int, (j + 1) as nat);
                    assert(start.len() == n);
                }
            }
            j += 1;
        }
        i += 1;
    }
    labels
}

/// The memories without those that mean the same as a better one. `similar[i][j]` says
/// whether the embeddings of two memories are close enough; `scores` say which of them
/// stays.
pub fn dedup_by_semantic(items: Vec<MemoryItem>, similar: &Vec<Vec<bool>>, scores: &Vec<i128>) -> (out: Vec<
    MemoryItem,
>)
    requires
        similar@.len() == items@.len(),
        forall|i: int| 0 <= i < items@.len() ==> (#[trigger] similar@[i])@.len() == items@.len(),
        scores@.len() == items@.len(),
    ensures
        out@ == kept(
            items@,
            Seq::new(
                items@.len(),
                |i: int|
                    best_in_group(
                        group_labels(
                            similar@.map_values(|r: Vec<bool>| r@),
                            items@.len(),
                            items@.len(),
                        ),
                        scores@,
                        i,
                    ),
            ),
        ),
{
    let n: usize = items.len();
    let labels = group_all(similar, n);
    let ghost want = positions(labels@);
    let mut flags: Vec<bool> = Vec::new();
    let mut i: usize = 0;
    while i < n
        invariant
            i <= n,
            n == labels@.len(),
            n == scores@.len(),
            want == positions(labels@),
            flags@.len() == i,
            forall|k: int| 0 <= k < i ==> #[trigger] flags@[k] == best_in_group(want, scores@, k),
        decreases n - i,
    {
        let mut best: bool = true;
        let mut j: usize = 0;
        while j < n
            invariant
                j <= n,
                i < n,
                n == labels@.len(),
                n == scores@.len(),
                want == positions(labels@),
                best == forall|k: int|
                    0 <= k < j && want[k] == want[i as int] && k != i ==> (#[trigger] scores@[k])
                        < scores@[i as int] || (scores@[k] == scores@[i as int] && i < k),
            decreases n - j,
        {
            assert(want[j as int] == labels@[j as int] as int);
            assert(want[i as int] == labels@[i as int] as int);
            if labels[j] == labels[i] && j != i && !(scores[j] < scores[i] || (scores[j]
                == scores[i] && i < j)) {
                assert(!((scores@[j as int]) < scores@[i as int] || (scores@[j as int]
                    == scores@[i as int] && i < j)));
                best = false;
            }
            j += 1;
        }
        flags.push(best);
        i += 1;
    }
    proof {
        let flagged = Seq::new(
            items@.len(),
            |i: int|
                best_in_group(
                    group_labels(
                        similar@.map_values(|r: Vec<bool>| r@),
                        items@.len(),
                        items@.len(),
                    ),
                    scores@,
                    i,
                ),
        );
        assert(flags@ =~= flagged);
    }
    take_flagged(items, &flags)
}

// ---------------------------------------------------------------------------
// Filling gaps
// ---------------------------------------------------------------------------

/// How well a memory fills the gaps of the results, in millionths.
#[derive(Debug, Clone, Copy, PartialEq, Eq, Structural)]
pub struct PostGraphScore {
    /// How little it shares with the result that is most like it.
    pub novelty: i64,
    /// How much its tags and its episode differ from those of the results.
    pub complementarity: i64,
    /// How much detail it has.
    pub specificity: i64,
    /// How many words of the query only it has.
    pub gap_fill: i64,
    pub total: i64,
}

/// A quarter of novelty and of filled gaps, three tenths of difference, a fifth of
/// detail.
pub open spec fn gap_total(novelty: i64, complementarity: i64, specificity: i64, gap_fill: i64) -> int {
    (novelty * 25 + complementarity * 30 + specificity * 20 + gap_fill * 25) / 100
}

impl PostGraphScore {
    /// The weighted sum.
    pub fn total(&self) -> (r: i64)
        requires
            0 <= self.novelty <= ONE && 0 <= self.complementarity <= ONE && 0 <= self.specificity
                <= ONE && 0 <= self.gap_fill <= ONE,
        ensures
            r == gap_total(self.novelty, self.complementarity, self.specificity, self.gap_fill),
            0 <= r <= ONE,
    {
        (self.novelty * 25 + self.complementarity * 30 + self.specificity * 20 + self.gap_fill * 25)
            / 100
    }
}

/// What two lists share, in millionths: the words in both by the words in one of them,
/// or by one.
pub open spec fn overlap_share(a: Seq<Seq<char>>, b: Seq<Seq<char>>) -> int {
    let o = overlap(a, b);
    (o.0 as int * 1_000_000) / (if o.1 == 0 {
        1
    } else {
        o.1 as int
    })
}

fn share_of(a: &Vec<String>, b: &Vec<String>) -> (r: i64)
    ensures
        r == overlap_share(texts(a@), texts(b@)),
        0 <= r <= ONE,
{
    let (n, all) = overlap_of(a, b);
    let d: u128 = if all == 0 {
        1
    } else {
        all
    };
    proof {
        assert(n * 1_000_000 <= d * 1_000_000) by (nonlinear_arith)
            requires
                n <= d,
        ;
        assert(0 <= (n as int * 1_000_000) / (d as int) <= 1_000_000) by (nonlinear_arith)
            requires
                0 <= n * 1_000_000 <= d * 1_000_000,
                d > 0,
        ;
    }
    let q: u128 = n as u128 * 1_000_000 / d;
    q as i64
}

/// The smallest share of the first `n` results, at most one.
pub open spec fn least_share(words: Seq<Seq<char>>, hit_words: Seq<Seq<Seq<char>>>, n: nat) -> int
    decreases n,
{
    if n == 0 {
        ONE as int
    } else {
        let rest = least_share(words, hit_words, (n - 1) as nat);
        let s = overlap_share(words, hit_words[n - 1]);
        if s < rest {
            s
        } else {
            rest
        }
    }
}

/// How much the tags and the episode differ from those of the first `n` results.
pub open spec fn differences(m: ItemView, hits: Seq<ItemView>, n: nat) -> int
    decreases n,
{
    if n == 0 {
        0
    } else {
        differences(m, hits, (n - 1) as nat) + (ONE - overlap_share(m.tags, hits[n - 1].tags)) + (
        if m.episode_id != hits[n - 1].episode_id {
            100_000int
        } else {
            0
        })
    }
}

/// The number within zero and one.
pub open spec fn within_one(x: int) -> int {
    if x < 0 {
        0
    } else if x > ONE {
        ONE as int
    } else {
        x
    }
}

/// Whether one of the results has the word.
pub open spec fn covered(hit_words: Seq<Seq<Seq<char>>>, w: Seq<char>) -> bool {
    exists|i: int| 0 <= i < hit_words.len() && (#[trigger] hit_words[i]).contains(w)
}

/// How many of the first `n` words of the query the memory has and no result.
pub open spec fn gaps_filled(
    query: Seq<Seq<char>>,
    words: Seq<Seq<char>>,
    hit_words: Seq<Seq<Seq<char>>>,
    n: nat,
) -> nat
    decreases n,
{
    if n == 0 {
        0
    } else {
        gaps_filled(query, words, hit_words, (n - 1) as nat) + (if !covered(
            hit_words,
            query[n - 1],
        ) && words.contains(query[n - 1]) {
            1nat
        } else {
            0nat
        })
    }
}

/// How well a memory fills the gaps of the results. `specificity` is how much detail
/// it has.
pub open spec fn gap_score(
    m: ItemView,
    words: Seq<Seq<char>>,
    query: Seq<Seq<char>>,
    hits: Seq<ItemView>,
    hit_words: Seq<Seq<Seq<char>>>,
    specificity: i64,
) -> PostGraphScore {
    let novelty = if hits.len() == 0 {
        ONE
    } else {
        (ONE - least_share(words, hit_words, hits.len())) as i64
    };
    let complementarity = if hits.len() == 0 {
        ONE
    } else {
        within_one(differences(m, hits, hits.len()) / (hits.len() as int)) as i64
    };
    let gap_fill = if query.len() == 0 {
        0
    } else {
        (gaps_filled(query, words, hit_words, query.len()) as int * 1_000_000 / (query.len() as int)) as i64
    };
    PostGraphScore {
        novelty,
        complementarity,
        specificity,
        gap_fill,
        total: gap_total(novelty, complementarity, specificity, gap_fill) as i64,
    }
}

fn is_covered(hit_words: &Vec<Vec<String>>, w: &str) -> (r: bool)
    ensures
        r == covered(crate::tokens::word_lists(hit_words@), w@),
{
    let ghost all = crate::tokens::word_lists(hit_words@);
    let mut i: usize = 0;
    while i < hit_words.len()
        invariant
            i <= hit_words@.len(),
            all == crate::tokens::word_lists(hit_words@),
            forall|k: int| 0 <= k < i ==> !(#[trigger] all[k]).contains(w@),
        decreases hit_words@.len() - i,
    {
        assert(all[i as int] == texts(hit_words@[i as int]@));
        if list_has(&hit_words[i], w) {
            return true;
        }
        i += 1;
    }
    false
}

fn same_option(a: &Option<String>, b: &Option<String>) -> (r: bool)
    ensures
        r == (opt_text(*a) == opt_text(*b)),
{
    match (a, b) {
        (Some(x), Some(y)) => same(x.as_str(), y.as_str()),
        (None, None) => true,
        _ => false,
    }
}

/// How well a memory fills the gaps of the results, given the words of all of them.
pub fn post_graph_score(
    candidate: &MemoryItem,
    words: &Vec<String>,
    query_tokens: &Vec<String>,
    hits: &[MemoryItem],
    hit_words: &Vec<Vec<String>>,
    specificity: i64,
) -> (r: PostGraphScore)
    requires
        hits@.len() == hit_words@.len(),
        hits@.len() <= 1_000_000_000_000,
        0 <= specificity <= ONE,
    ensures
        r == gap_score(
            candidate@,
            texts(words@),
            texts(query_tokens@),
            item_views(hits@),
            crate::tokens::word_lists(hit_words@),
            specificity,
        ),
        0 <= r.total <= ONE,
{
    let ghost hv = item_views(hits@);
    let ghost hw = crate::tokens::word_lists(hit_words@);
    let ghost ws = texts(words@);
    let ghost qs = texts(query_tokens@);
    let n: usize = hits.len();
    let mut least: i64 = ONE;
    let mut diff: i64 = 0;
    let mut i: usize = 0;
    while i < n
        invariant
            i <= n,
            n == hits@.len(),
            n == hit_words@.len(),
            n <= 1_000_000_000_000,
            hv == item_views(hits@),
            hw == crate::tokens::word_lists(hit_words@),
            ws == texts(words@),
            0 <= least <= ONE,
            least == least_share(ws, hw, i as nat),
            0 <= diff <= i * 1_100_000,
            diff == differences(candidate@, hv, i as nat),
        decreases n - i,
    {
        assert(hw[i as int] == texts(hit_words@[i as int]@));
        assert(hv[i as int] == hits@[i as int]@);
        let s: i64 = share_of(words, &hit_words[i]);
        if s < least {
            least = s;
        }
        let t: i64 = share_of(&candidate.tags, &hits[i].tags);
        let e: i64 = if same_option(&candidate.episode_id, &hits[i].episode_id) {
            0
        } else {
            100_000
        };
        diff = diff + (ONE - t) + e;
        i += 1;
    }
    let novelty: i64 = if n == 0 {
        ONE
    } else {
        ONE - least
    };
    let complementarity: i64 = if n == 0 {
        ONE
    } else {
        let q: i64 = diff / (n as i64);
        if q < 0 {
            0
        } else if q > ONE {
            ONE
        } else {
            q
        }
    };
    let total_words: usize = query_tokens.len();
    assert(qs.len() == total_words);
    let mut filled: usize = 0;
    let mut k: usize = 0;
    while k < total_words
        invariant
            k <= total_words,
            total_words == query_tokens@.len(),
            qs == texts(query_tokens@),
            ws == texts(words@),
            hw == crate::tokens::word_lists(hit_words@),
            filled <= k,
            filled == gaps_filled(qs, ws, hw, k as nat),
        decreases total_words - k,
    {
        assert(qs[k as int] == query_tokens@[k as int]@);
        let w = query_tokens[k].as_str();
        if !is_covered(hit_words, w) && list_has(words, w) {
            filled += 1;
        }
        k += 1;
    }
    let gap_fill: i64 = if total_words == 0 {
        0
    } else {
        proof {
            assert(filled * 1_000_000 <= total_words * 1_000_000) by (nonlinear_arith)
                requires
                    filled <= total_words,
            ;
            assert(0 <= (filled as int * 1_000_000) / (total_words as int) <= 1_000_000) by (
                nonlinear_arith)
                requires
                    0 <= filled * 1_000_000 <= total_words * 1_000_000,
                    total_words > 0,
            ;
        }
        let q: u128 = filled as u128 * 1_000_000 / total_words as u128;
        q as i64
    };
    let partial = PostGraphScore { novelty, complementarity, specificity, gap_fill, total: 0 };
    let total: i64 = partial.total();
    PostGraphScore { novelty, complementarity, specificity, gap_fill, total }
}

/// The positions of the candidates that are good enough, best first.
pub open spec fn gap_fillers(scores: Seq<PostGraphScore>, min_score: i64, target: int) -> Seq<int> {
    let at = good_enough(scores, min_score, scores.len());
    ranked(at, at.map_values(|i: int| scores[i].total as i128), target)
}

/// The positions of the candidates among the first `n` that are good enough.
pub open spec fn good_enough(scores: Seq<PostGraphScore>, min_score: i64, n: nat) -> Seq<int>
    decreases n,
{
    if n == 0 {
        Seq::<int>::empty()
    } else {
        let rest = good_enough(scores, min_score, (n - 1) as nat);
        if scores[n - 1].total >= min_score {
            rest.push(n - 1)
        } else {
            rest
        }
    }
}

/// The candidates that fill gaps best, by position.
pub fn post_graph_compensation(scores: &Vec<PostGraphScore>, target_n: usize, min_score: i64) -> (out: Vec<
    usize,
>)
    ensures
        positions(out@) == gap_fillers(scores@, min_score, target_n as int),
        forall|i: int| 0 <= i < out@.len() ==> (#[trigger] out@[i]) < scores@.len(),
{
    let mut at: Vec<usize> = Vec::new();
    let mut keys: Vec<i128> = Vec::new();
    let mut i: usize = 0;
    assert(positions(at@) =~= good_enough(scores@, min_score, 0));
    assert(keys@ =~= positions(at@).map_values(|i: int| scores@[i].total as i128));
    while i < scores.len()
        invariant
            i <= scores@.len(),
            positions(at@) == good_enough(scores@, min_score, i as nat),
            forall|k: int| 0 <= k < at@.len() ==> (#[trigger] at@[k]) < scores@.len(),
            keys@ == positions(at@).map_values(|i: int| scores@[i].total as i128),
        decreases scores@.len() - i,
    {
        if scores[i].total >= min_score {
            let ghost p0 = positions(at@);
            let ghost a0 = at@;
            at.push(i);
            keys.push(scores[i].total as i128);
            proof {
                assert(positions(at@) =~= p0.push(i as int));
                assert(keys@ =~= positions(at@).map_values(|i: int| scores@[i].total as i128));
                assert forall|k: int| 0 <= k < at@.len() implies (#[trigger] at@[k])
                    < scores@.len() by {
                    if k < a0.len() {
                        assert(at@[k] == a0[k]);
                    }
                }
            }
        }
        i += 1;
    }
    let p = order_desc(&keys);
    proof {
        order_sorts(keys@);
        assert(positions(at@).len() == at@.len());
    }
    let n: usize = if target_n < p.len() {
        target_n
    } else {
        p.len()
    };
    let ghost want = gap_fillers(scores@, min_score, target_n as int);
    let mut out: Vec<usize> = Vec::new();
    let mut k: usize = 0;
    while k < n
        invariant
            k <= n <= p@.len(),
            n == want.len(),
            p@.len() == at@.len(),
            p@.len() == keys@.len(),
            want == ranked(positions(at@), keys@, target_n as int),
            positions(p@) == order_of(keys@),
            forall|x: int| 0 <= x < p@.len() ==> (#[trigger] p@[x]) < keys@.len(),
            forall|x: int| 0 <= x < at@.len() ==> (#[trigger] at@[x]) < scores@.len(),
            out@.len() == k,
            forall|x: int| 0 <= x < k ==> (#[trigger] out@[x]) as int == want[x] && out@[x]
                < scores@.len(),
        decreases n - k,
    {
        let w: usize = p[k];
        assert(positions(p@)[k as int] == w as int);
        assert(positions(at@)[w as int] == at@[w as int] as int);
        out.push(at[w]);
        k += 1;
    }
    assert(positions(out@) =~= want);
    out
}

// ---------------------------------------------------------------------------
// The whole search
// ---------------------------------------------------------------------------

/// A memory of which only the identifier is known.
pub open spec fn blank_item(id: Seq<char>) -> ItemView {
    ItemView {
        id,
        content: Seq::empty(),
        granularity: Seq::empty(),
        memory_type: Seq::empty(),
        importance: 0,
        timestamp: 0,
        embedding: None,
        tags: Seq::empty(),
        metadata: Map::empty(),
        related_ids: Seq::empty(),
        description: None,
        visit_count: 0,
        last_visit_at: 0,
        heat_score: 0,
        open_hooks: Seq::empty(),
        reinforcement: 0,
        disputation: 0,
        rein_last_signal_at: 0,
        disp_last_signal_at: 0,
        sub_zero_days: 0,
        sub_zero_last_increment_date: Seq::empty(),
        user_fact_reinforce_count: 0,
        protected: false,
        episode_id: None,
        rebuttal_grace_remaining: 0,
        consolidated: false,
    }
}

fn make_blank(id: &str) -> (m: MemoryItem)
    ensures
        m@ == blank_item(id@),
{
    let m = MemoryItem {
        id: id.to_owned(),
        content: String::new(),
        granularity: String::new(),
        memory_type: String::new(),
        importance: 0,
        timestamp: 0,
        embedding: None,
        tags: Vec::new(),
        metadata: Metadata::new(),
        related_ids: Vec::new(),
        description: None,
        visit_count: 0,
        last_visit_at: 0,
        heat_score: 0,
        open_hooks: Vec::new(),
        reinforcement: 0,
        disputation: 0,
        rein_last_signal_at: 0,
        disp_last_signal_at: 0,
        sub_zero_days: 0,
        sub_zero_last_increment_date: String::new(),
        user_fact_reinforce_count: 0,
        protected: false,
        episode_id: None,
        rebuttal_grace_remaining: 0,
        consolidated: false,
    };
    assert(m@.tags =~= Seq::<Seq<char>>::empty());
    assert(m@.related_ids =~= Seq::<Seq<char>>::empty());
    assert(m@.open_hooks =~= Seq::<HookView>::empty());
    m
}

/// A fused result as a result whose memory is still to be filled in.
pub open spec fn unfilled(f: FusedView) -> RetrievalView {
    RetrievalView {
        item: blank_item(f.id),
        bm25_score: f.bm25,
        vector_score: f.vector,
        graph_score: f.graph,
        fused_score: f.fused,
        result_type: RetrievalResultType::Memory,
    }
}

/// What a result gains whose memory holds the whole query: a thousandth.
pub const WHOLE_QUERY_BONUS: i64 = 1_000_000_000;

/// Whether the memory with that identifier holds the whole query, whatever the case.
pub open spec fn holds_query(entries: Seq<ItemView>, query: Seq<char>, id: Seq<char>) -> bool {
    match last_with_id(entries, id) {
        Some(at) => lowercase(query).len() > 0 && has_sub(
            lowercase(entries[at].content),
            lowercase(query),
        ),
        None => false,
    }
}

/// A fused result with what it gains for the whole query.
pub open spec fn weighted(entries: Seq<ItemView>, query: Seq<char>, f: FusedView) -> RetrievalView {
    RetrievalView {
        fused_score: if holds_query(entries, query, f.id) {
            (f.fused + WHOLE_QUERY_BONUS) as i64
        } else {
            f.fused
        },
        ..unfilled(f)
    }
}

/// The fused results, each with what it gains for the whole query, by score.
pub open spec fn reweighted(
    entries: Seq<ItemView>,
    query: Seq<char>,
    fused: Seq<FusedView>,
) -> Seq<RetrievalView> {
    let s = fused.map_values(|f: FusedView| weighted(entries, query, f));
    ranked(s, s.map_values(|h: RetrievalView| h.fused_score as i128), s.len() as int)
}

/// The fused results as results whose memories are still to be filled in: one whose memory
/// holds the whole query gains a little. Ties keep their order.
pub fn rerank(fused: &Vec<FusedHit>, entries: &[MemoryItem], query: &str) -> (out: Vec<RetrievalHit>)
    requires
        forall|i: int|
            0 <= i < fused@.len() ==> (#[trigger] fused@[i]).fused <= i64::MAX - WHOLE_QUERY_BONUS,
    ensures
        result_views(out@) == reweighted(item_views(entries@), query@, fused_views(fused@)),
{
    let ghost ev = item_views(entries@);
    let small = lower(query);
    let needle = chars_of(small.as_str());
    let mut out: Vec<RetrievalHit> = Vec::new();
    let mut i: usize = 0;
    while i < fused.len()
        invariant
            i <= fused@.len(),
            ev == item_views(entries@),
            needle@ == lowercase(query@),
            out@.len() == i,
            forall|k: int|
                0 <= k < fused@.len() ==> (#[trigger] fused@[k]).fused <= i64::MAX
                    - WHOLE_QUERY_BONUS,
            forall|k: int| 0 <= k < i ==> (#[trigger] out@[k])@ == weighted(ev, query@, fused@[k]@),
        decreases fused@.len() - i,
    {
        let f = &fused[i];
        assert(f.fused <= i64::MAX - WHOLE_QUERY_BONUS);
        let whole = match position_by_id(entries, f.id.as_str()) {
            Some(at) => {
                assert(ev[at as int] == entries@[at as int]@);
                let content = lower(entries[at].content.as_str());
                let hay = chars_of(content.as_str());
                needle.len() > 0 && contains_chars(hay.as_slice(), needle.as_slice())
            },
            None => false,
        };
        out.push(
            RetrievalHit {
                item: make_blank(f.id.as_str()),
                bm25_score: f.bm25,
                vector_score: f.vector,
                graph_score: f.graph,
                fused_score: if whole {
                    f.fused + WHOLE_QUERY_BONUS
                } else {
                    f.fused
                },
                result_type: RetrievalResultType::Memory,
            },
        );
        i += 1;
    }
    assert(result_views(out@) =~= fused_views(fused@).map_values(
        |f: FusedView| weighted(ev, query@, f),
    ));
    sort_results(&out)
}

/// Whether a result has that identifier.
pub open spec fn is_result(results: Seq<RetrievalView>, id: Seq<char>) -> bool {
    exists|i: int| 0 <= i < results.len() && (#[trigger] results[i]).item.id == id
}

/// The positions of the first `n` memories that are no results.
pub open spec fn absent(entries: Seq<ItemView>, results: Seq<RetrievalView>, n: nat) -> Seq<int>
    decreases n,
{
    if n == 0 {
        Seq::<int>::empty()
    } else {
        let rest = absent(entries, results, (n - 1) as nat);
        if is_result(results, entries[n - 1].id) {
            rest
        } else {
            rest.push(n - 1)
        }
    }
}

/// What is known of the memories that are searched: the words of each and how much
/// detail it has.
pub struct Corpus {
    pub entries: Seq<ItemView>,
    pub words: Seq<Seq<Seq<char>>>,
    pub specificity: Seq<i64>,
}

/// The memories of the results. One that is not among those searched is blank.
pub open spec fn hit_items(entries: Seq<ItemView>, results: Seq<RetrievalView>) -> Seq<ItemView> {
    results.map_values(
        |r: RetrievalView|
            match last_with_id(entries, r.item.id) {
                Some(at) => entries[at],
                None => blank_item(r.item.id),
            },
    )
}

/// The words of the results' memories, those of an empty text where the memory is blank.
pub open spec fn hit_words(
    c: Corpus,
    results: Seq<RetrievalView>,
    blank_words: Seq<Seq<char>>,
) -> Seq<Seq<Seq<char>>> {
    results.map_values(
        |r: RetrievalView|
            match last_with_id(c.entries, r.item.id) {
                Some(at) => c.words[at],
                None => blank_words,
            },
    )
}

/// How well the memories at the positions fill the gaps that the results' memories leave.
pub open spec fn gap_scores(
    c: Corpus,
    at: Seq<int>,
    query: Seq<Seq<char>>,
    results: Seq<RetrievalView>,
    blank_words: Seq<Seq<char>>,
) -> Seq<PostGraphScore> {
    at.map_values(
        |i: int|
            gap_score(
                c.entries[i],
                c.words[i],
                query,
                hit_items(c.entries, results),
                hit_words(c, results, blank_words),
                c.specificity[i],
            ),
    )
}

/// The score of a memory that fills a gap: half of its own, and half of that of the
/// last result or of three tenths.
pub open spec fn filler_score(last: i64, total: i64) -> i64 {
    let base = if last > 300_000_000_000 {
        last
    } else {
        300_000_000_000
    };
    ((base + total * 1_000_000) / 2) as i64
}

/// A memory that fills a gap, as a result.
pub open spec fn filler(m: ItemView, score: PostGraphScore, last: i64) -> RetrievalView {
    RetrievalView {
        item: m,
        bm25_score: 0,
        vector_score: 0,
        graph_score: score.total,
        fused_score: filler_score(last, score.total),
        result_type: RetrievalResultType::Memory,
    }
}

/// The results and the memories that fill their gaps best, by score.
pub open spec fn compensated(
    results: Seq<RetrievalView>,
    c: Corpus,
    query: Seq<Seq<char>>,
    blank_words: Seq<Seq<char>>,
    target: int,
    min_score: i64,
) -> Seq<RetrievalView> {
    let at = absent(c.entries, results, c.entries.len());
    if results.len() == 0 || target == 0 || at.len() == 0 {
        results
    } else {
        let scores = gap_scores(c, at, query, results, blank_words);
        let picks = gap_fillers(scores, min_score, target);
        let all = results + picks.map_values(
            |k: int| filler(c.entries[at[k]], scores[k], results.last().fused_score),
        );
        ranked(all, all.map_values(|r: RetrievalView| r.fused_score as i128), all.len() as int)
    }
}

fn has_result(results: &Vec<RetrievalHit>, id: &str) -> (r: bool)
    ensures
        r == is_result(result_views(results@), id@),
{
    let ghost all = result_views(results@);
    let mut i: usize = 0;
    while i < results.len()
        invariant
            i <= results@.len(),
            all == result_views(results@),
            forall|k: int| 0 <= k < i ==> (#[trigger] all[k]).item.id != id@,
        decreases results@.len() - i,
    {
        assert(all[i as int] == results@[i as int]@);
        if same(results[i].item.id.as_str(), id) {
            return true;
        }
        i += 1;
    }
    false
}

fn find_absent(entries: &[MemoryItem], results: &Vec<RetrievalHit>) -> (out: Vec<usize>)
    ensures
        positions(out@) == absent(item_views(entries@), result_views(results@), entries@.len()),
        forall|i: int| 0 <= i < out@.len() ==> (#[trigger] out@[i]) < entries@.len(),
{
    let ghost ev = item_views(entries@);
    let mut out: Vec<usize> = Vec::new();
    let mut i: usize = 0;
    assert(positions(out@) =~= absent(ev, result_views(results@), 0));
    while i < entries.len()
        invariant
            i <= entries@.len(),
            ev == item_views(entries@),
            positions(out@) == absent(ev, result_views(results@), i as nat),
            forall|k: int| 0 <= k < out@.len() ==> (#[trigger] out@[k]) < entries@.len(),
        decreases entries@.len() - i,
    {
        assert(ev[i as int] == entries@[i as int]@);
        if !has_result(results, entries[i].id.as_str()) {
            let ghost prev = positions(out@);
            let ghost o = out@;
            out.push(i);
            assert(positions(out@) =~= prev.push(i as int));
            assert forall|k: int| 0 <= k < out@.len() implies (#[trigger] out@[k])
                < entries@.len() by {
                if k < o.len() {
                    assert(out@[k] == o[k]);
                }
            }
        }
        i += 1;
    }
    out
}

/// A score that leaves room to be halved and summed.
pub open spec fn moderate(x: i64) -> bool {
    0 <= x <= 1_000_000_000_000_000_000
}

/// The results and the memories that fill their gaps best, by score.
pub fn apply_post_graph_compensation(
    results: Vec<RetrievalHit>,
    entries: &[MemoryItem],
    words: &Vec<Vec<String>>,
    specificity: &Vec<i64>,
    query_words: &Vec<String>,
    blank_words: &Vec<String>,
    target_n: usize,
    min_score: i64,
) -> (out: Vec<RetrievalHit>)
    requires
        entries@.len() == words@.len(),
        entries@.len() == specificity@.len(),
        results@.len() <= 1_000_000_000_000,
        forall|i: int| 0 <= i < specificity@.len() ==> 0 <= #[trigger] specificity@[i] <= ONE,
        forall|i: int| 0 <= i < results@.len() ==> moderate((#[trigger] results@[i]).fused_score),
    ensures
        result_views(out@) == compensated(
            result_views(results@),
            Corpus {
                entries: item_views(entries@),
                words: crate::tokens::word_lists(words@),
                specificity: specificity@,
            },
            texts(query_words@),
            texts(blank_words@),
            target_n as int,
            min_score,
        ),
{
    let ghost rv = result_views(results@);
    let ghost c = Corpus {
        entries: item_views(entries@),
        words: crate::tokens::word_lists(words@),
        specificity: specificity@,
    };
    let at = find_absent(entries, &results);
    assert(positions(at@).len() == at@.len());
    if results.len() == 0 || target_n == 0 || at.len() == 0 {
        return results;
    }
    let last: i64 = results[results.len() - 1].fused_score;
    assert(moderate(results@[results@.len() - 1].fused_score));
    assert(rv.last() == results@[results@.len() - 1]@);
    let mut items: Vec<MemoryItem> = Vec::new();
    let mut known: Vec<Vec<String>> = Vec::new();
    let ghost want_items = hit_items(c.entries, rv);
    let ghost want_words = hit_words(c, rv, texts(blank_words@));
    let mut i: usize = 0;
    while i < results.len()
        invariant
            i <= results@.len(),
            entries@.len() == words@.len(),
            rv == result_views(results@),
            c.entries == item_views(entries@),
            c.words == crate::tokens::word_lists(words@),
            want_items == hit_items(c.entries, rv),
            want_words == hit_words(c, rv, texts(blank_words@)),
            items@.len() == i,
            known@.len() == i,
            forall|k: int| 0 <= k < i ==> (#[trigger] items@[k])@ == want_items[k],
            forall|k: int| 0 <= k < i ==> texts((#[trigger] known@[k])@) == want_words[k],
        decreases results@.len() - i,
    {
        assert(rv[i as int] == results@[i as int]@);
        match position_by_id(entries, results[i].item.id.as_str()) {
            Some(e) => {
                assert(c.entries[e as int] == entries@[e as int]@);
                assert(c.words[e as int] == texts(words@[e as int]@));
                items.push(entries[e].clone());
                known.push(crate::text::copy_strings(&words[e]));
            },
            None => {
                items.push(make_blank(results[i].item.id.as_str()));
                known.push(crate::text::copy_strings(blank_words));
            },
        }
        i += 1;
    }
    proof {
        assert(item_views(items@) =~= want_items);
        assert(crate::tokens::word_lists(known@) =~= want_words);
    }
    let ghost want_scores = gap_scores(c, positions(at@), texts(query_words@), rv, texts(blank_words@));
    let mut scores: Vec<PostGraphScore> = Vec::new();
    let mut k: usize = 0;
    while k < at.len()
        invariant
            k <= at@.len(),
            entries@.len() == words@.len(),
            entries@.len() == specificity@.len(),
            items@.len() == known@.len(),
            items@.len() <= 1_000_000_000_000,
            c == (Corpus {
                entries: item_views(entries@),
                words: crate::tokens::word_lists(words@),
                specificity: specificity@,
            }),
            item_views(items@) == hit_items(c.entries, rv),
            crate::tokens::word_lists(known@) == hit_words(c, rv, texts(blank_words@)),
            want_scores == gap_scores(
                c,
                positions(at@),
                texts(query_words@),
                rv,
                texts(blank_words@),
            ),
            forall|j: int| 0 <= j < at@.len() ==> (#[trigger] at@[j]) < entries@.len(),
            forall|j: int| 0 <= j < specificity@.len() ==> 0 <= #[trigger] specificity@[j] <= ONE,
            scores@.len() == k,
            forall|j: int|
                0 <= j < k ==> #[trigger] scores@[j] == want_scores[j] && 0 <= scores@[j].total
                    <= ONE,
        decreases at@.len() - k,
    {
        let e: usize = at[k];
        assert(positions(at@)[k as int] == e as int);
        assert(c.words[e as int] == texts(words@[e as int]@));
        assert(c.entries[e as int] == entries@[e as int]@);
        assert(0 <= specificity@[e as int] <= ONE);
        let sc = post_graph_score(
            &entries[e],
            &words[e],
            query_words,
            items.as_slice(),
            &known,
            specificity[e],
        );
        scores.push(sc);
        k += 1;
    }
    assert(scores@ =~= want_scores);
    let picks = post_graph_compensation(&scores, target_n, min_score);
    let ghost fillers = positions(picks@).map_values(
        |j: int| filler(c.entries[positions(at@)[j]], want_scores[j], rv.last().fused_score),
    );
    let ghost all = rv + fillers;
    let mut list = results;
    let mut p: usize = 0;
    assert(result_views(list@) =~= rv + fillers.take(0));
    while p < picks.len()
        invariant
            p <= picks@.len(),
            c.entries == item_views(entries@),
            scores@ == want_scores,
            scores@.len() == at@.len(),
            moderate(last),
            last == rv.last().fused_score,
            fillers == positions(picks@).map_values(
                |j: int|
                    filler(c.entries[positions(at@)[j]], want_scores[j], rv.last().fused_score),
            ),
            forall|j: int| 0 <= j < at@.len() ==> (#[trigger] at@[j]) < entries@.len(),
            forall|j: int| 0 <= j < picks@.len() ==> (#[trigger] picks@[j]) < scores@.len(),
            forall|j: int| 0 <= j < scores@.len() ==> 0 <= (#[trigger] scores@[j]).total <= ONE,
            result_views(list@) == rv + fillers.take(p as int),
        decreases picks@.len() - p,
    {
        let j: usize = picks[p];
        let e: usize = at[j];
        assert(positions(picks@)[p as int] == j as int);
        assert(positions(at@)[j as int] == e as int);
        assert(c.entries[e as int] == entries@[e as int]@);
        assert(0 <= scores@[j as int].total <= ONE);
        let total: i64 = scores[j].total;
        let base: i64 = if last > 300_000_000_000 {
            last
        } else {
            300_000_000_000
        };
        let h = RetrievalHit {
            item: entries[e].clone(),
            bm25_score: 0,
            vector_score: 0,
            graph_score: total,
            fused_score: (base + total * 1_000_000) / 2,
            result_type: RetrievalResultType::Memory,
        };
        assert(h@ == fillers[p as int]);
        let ghost prev = result_views(list@);
        list.push(h);
        assert(result_views(list@) =~= prev.push(fillers[p as int]));
        p += 1;
        assert(fillers.take(p as int) =~= fillers.take(p - 1).push(fillers[p - 1]));
        assert(result_views(list@) =~= rv + fillers.take(p as int));
    }
    assert(fillers.take(p as int) =~= fillers);
    assert(result_views(list@) == all);
    sort_results(&list)
}

/// How many memories fill gaps, and how well at least, in millionths.
pub const GAP_FILLERS: usize = 2;

/// How well a memory must fill gaps, in millionths.
pub const GAP_MIN_SCORE: i64 = 300_000;

/// The results of a search from its arms.
pub open spec fn searched(
    c: Corpus,
    arms: Arms,
    query: Seq<char>,
    query_words: Seq<Seq<char>>,
    blank_words: Seq<Seq<char>>,
    limit: int,
) -> Seq<RetrievalView> {
    if c.entries.len() == 0 {
        Seq::<RetrievalView>::empty()
    } else {
        let r = compensated(
            reweighted(c.entries, query, fused_list(arms)),
            c,
            query_words,
            blank_words,
            GAP_FILLERS as int,
            GAP_MIN_SCORE,
        );
        if limit < r.len() {
            r.take(limit)
        } else {
            r
        }
    }
}

/// The arm of the names, given the words of the query.
pub open spec fn name_arm(entries: Seq<ItemView>, query: Seq<Seq<char>>, k: int) -> Seq<Scored> {
    let found = named_entries(name_words(query), entries, entries.len());
    ranked(found, scores_of(found), k)
}

/// The results of a search, given the words of the query and of the memories and what
/// the other arms found: the arms are fused, gaps filled, and the best kept.
pub fn hybrid_search_with_words(
    entries: &[MemoryItem],
    words: &Vec<Vec<String>>,
    specificity: &Vec<i64>,
    query: &str,
    query_words: &Vec<String>,
    blank_words: &Vec<String>,
    bm25: &Vec<(String, i64)>,
    vector: &Vec<(String, i64)>,
    graph: &Vec<(String, i64)>,
    candidate_k: usize,
    limit: usize,
) -> (out: Vec<RetrievalHit>)
    requires
        entries@.len() == words@.len(),
        entries@.len() == specificity@.len(),
        bm25@.len() + vector@.len() + graph@.len() + entries@.len() <= 1_000_000_000_000,
        forall|i: int| 0 <= i < specificity@.len() ==> 0 <= #[trigger] specificity@[i] <= ONE,
    ensures
        result_views(out@) == searched(
            Corpus {
                entries: item_views(entries@),
                words: crate::tokens::word_lists(words@),
                specificity: specificity@,
            },
            Arms {
                bm25: arm_view(bm25@),
                vector: arm_view(vector@),
                graph: arm_view(graph@),
                entity: name_arm(item_views(entries@), texts(query_words@), candidate_k as int),
            },
            query@,
            texts(query_words@),
            texts(blank_words@),
            limit as int,
        ),
{
    if entries.len() == 0 {
        let none: Vec<RetrievalHit> = Vec::new();
        assert(result_views(none@) =~= Seq::<RetrievalView>::empty());
        return none;
    }
    let entity = entity_arm_search(entries, query_words, candidate_k);
    let fused = rrf_fuse(bm25, vector, graph, &entity);
    let ghost arms = Arms {
        bm25: arm_view(bm25@),
        vector: arm_view(vector@),
        graph: arm_view(graph@),
        entity: arm_view(entity@),
    };
    assert forall|i: int| 0 <= i < fused@.len() implies (#[trigger] fused@[i]).fused <= i64::MAX
        - WHOLE_QUERY_BONUS by {
        assert(fused_views(fused@)[i] == fused@[i]@);
        lemma_fused_range(arms, i);
    }
    let results = rerank(&fused, entries, query);
    proof {
        let s = fused_list(arms).map_values(
            |f: FusedView| weighted(item_views(entries@), query@, f),
        );
        let keys = s.map_values(|h: RetrievalView| h.fused_score as i128);
        order_sorts(keys);
        lemma_fused_len(arms);
        lemma_named_len(name_words(texts(query_words@)), item_views(entries@), entries@.len());
        order_sorts(
            scores_of(
                named_entries(
                    name_words(texts(query_words@)),
                    item_views(entries@),
                    entries@.len(),
                ),
            ),
        );
        assert(results@.len() == result_views(results@).len());
        assert(fused@.len() == fused_views(fused@).len());
        assert forall|i: int| 0 <= i < results@.len() implies moderate(
            (#[trigger] results@[i]).fused_score,
        ) by {
            assert(result_views(results@)[i] == results@[i]@);
            let at = order_of(keys)[i];
            lemma_fused_range(arms, at);
            assert(s[at] == weighted(item_views(entries@), query@, fused_list(arms)[at]));
            assert(result_views(results@)[i] == s[at]);
        }
    }
    let mut out = apply_post_graph_compensation(
        results,
        entries,
        words,
        specificity,
        query_words,
        blank_words,
        GAP_FILLERS,
        GAP_MIN_SCORE,
    );
    let ghost full = result_views(out@);
    if limit < out.len() {
        out.truncate(limit);
        assert(result_views(out@) =~= full.take(limit as int));
    }
    out
}

/// The arm of the graph: a memory counts the more the nearer it is.
pub open spec fn graph_arm(hits: Seq<HitView>) -> Seq<Scored> {
    hits.map_values(|h: HitView| (h.memory_id, (ONE as int / h.hop as int) as i64))
}

fn score_by_distance(hits: &Vec<RelationalHit>) -> (out: Vec<(String, i64)>)
    requires
        forall|i: int| 0 <= i < hits@.len() ==> (#[trigger] hits@[i]).hop > 0,
    ensures
        arm_view(out@) == graph_arm(hit_views(hits@)),
{
    let ghost all = graph_arm(hit_views(hits@));
    let mut out: Vec<(String, i64)> = Vec::new();
    let mut i: usize = 0;
    assert(arm_view(out@) =~= all.take(0));
    while i < hits.len()
        invariant
            i <= hits@.len(),
            all == graph_arm(hit_views(hits@)),
            forall|k: int| 0 <= k < hits@.len() ==> (#[trigger] hits@[k]).hop > 0,
            arm_view(out@) == all.take(i as int),
        decreases hits@.len() - i,
    {
        assert(hits@[i as int].hop > 0);
        assert(hit_views(hits@)[i as int] == hits@[i as int]@);
        let hop: u64 = hits[i].hop;
        let score: u64 = 1_000_000 / hop;
        assert(score <= 1_000_000) by (nonlinear_arith)
            requires
                hop > 0,
                score == 1_000_000u64 / hop,
        ;
        let ghost prev = arm_view(out@);
        out.push((hits[i].memory_id.clone(), score as i64));
        assert(arm_view(out@) =~= prev.push(all[i as int]));
        i += 1;
        assert(all.take(i as int) =~= all.take(i - 1).push(all[i - 1]));
    }
    assert(all.take(i as int) =~= all);
    out
}

/// The results of a search for a query, given what the arms of the words and of the vectors
/// found, what the graph reaches, and how much detail each memory has.
pub fn hybrid_search(
    entries: &[MemoryItem],
    query: &str,
    specificity: &Vec<i64>,
    bm25: &Vec<(String, i64)>,
    vector: &Vec<(String, i64)>,
    reached: &Vec<RelationalHit>,
    candidate_k: usize,
    limit: usize,
) -> (out: Vec<RetrievalHit>)
    requires
        entries@.len() == specificity@.len(),
        bm25@.len() + vector@.len() + reached@.len() + entries@.len() <= 1_000_000_000_000,
        forall|i: int| 0 <= i < specificity@.len() ==> 0 <= #[trigger] specificity@[i] <= ONE,
        forall|i: int| 0 <= i < reached@.len() ==> (#[trigger] reached@[i]).hop > 0,
    ensures
        result_views(out@) == searched(
            Corpus {
                entries: item_views(entries@),
                words: content_words(item_views(entries@)),
                specificity: specificity@,
            },
            Arms {
                bm25: arm_view(bm25@),
                vector: arm_view(vector@),
                graph: graph_arm(hit_views(reached@)),
                entity: name_arm(item_views(entries@), words_of(query@), candidate_k as int),
            },
            query@,
            words_of(query@),
            words_of(Seq::empty()),
            limit as int,
        ),
{
    let query_words = words_of_text(query);
    let blank_words = words_of_text("");
    let words = words_of_contents(entries);
    let graph = score_by_distance(reached);
    proof {
        reveal_strlit("");
        assert(""@ =~= Seq::<char>::empty());
        assert(arm_view(graph@).len() == graph@.len());
        assert(crate::tokens::word_lists(words@).len() == words@.len());
    }
    hybrid_search_with_words(
        entries,
        &words,
        specificity,
        query,
        &query_words,
        &blank_words,
        bm25,
        vector,
        &graph,
        candidate_k,
        limit,
    )
}

proof fn lemma_with_arm_len(s: Seq<Seq<char>>, arm: Seq<Scored>)
    ensures
        with_arm(s, arm).len() <= s.len() + arm.len(),
    decreases arm.len(),
{
    if arm.len() > 0 {
        lemma_with_arm_len(s, arm.drop_last());
        lemma_with_id_len(with_arm(s, arm.drop_last()), arm.last().0);
    }
}

proof fn lemma_fused_len(a: Arms)
    ensures
        fused_list(a).len() <= a.bm25.len() + a.vector.len() + a.graph.len() + a.entity.len(),
{
    let none = Seq::<Seq<char>>::empty();
    lemma_with_arm_len(none, a.bm25);
    let x = with_arm(none, a.bm25);
    lemma_with_arm_len(x, a.vector);
    let y = with_arm(x, a.vector);
    lemma_with_arm_len(y, a.graph);
    let z = with_arm(y, a.graph);
    lemma_with_arm_len(z, a.entity);
    let s = arm_ids(a).map_values(|id: Seq<char>| fused_for(a, id));
    order_sorts(s.map_values(|f: FusedView| f.fused as i128));
}

pub(crate) proof fn lemma_rank_worth(rank: Option<int>)
    requires
        rank is Some ==> rank->0 >= 0,
    ensures
        0 <= rank_worth(rank) <= FUSED_ONE,
{
    match rank {
        Some(r) => {
            let d = RRF_K + r + 1;
            assert(0 <= FUSED_ONE as int / d <= FUSED_ONE) by (nonlinear_arith)
                requires
                    d >= 1,
                    FUSED_ONE == 1_000_000_000_000,
            ;
        },
        None => {},
    }
}

pub(crate) proof fn lemma_rank_in(arm: Seq<Scored>, id: Seq<char>)
    ensures
        rank_in(arm, id) is Some ==> 0 <= rank_in(arm, id)->0 < arm.len(),
    decreases arm.len(),
{
    if arm.len() > 0 && arm.last().0 != id {
        lemma_rank_in(arm.drop_last(), id);
    }
}

/// A fused score is never negative, and at most four.
pub proof fn lemma_fused_range(a: Arms, i: int)
    requires
        0 <= i < fused_list(a).len(),
    ensures
        0 <= fused_list(a)[i].fused <= 4 * FUSED_ONE,
{
    let s = arm_ids(a).map_values(|id: Seq<char>| fused_for(a, id));
    let keys = s.map_values(|f: FusedView| f.fused as i128);
    order_sorts(keys);
    let at = order_of(keys)[i];
    let id = arm_ids(a)[at];
    assert(fused_list(a)[i] == s[at]);
    assert(s[at] == fused_for(a, id));
    lemma_rank_in(a.bm25, id);
    lemma_rank_in(a.vector, id);
    lemma_rank_in(a.graph, id);
    lemma_rank_in(a.entity, id);
    lemma_rank_worth(rank_in(a.bm25, id));
    lemma_rank_worth(rank_in(a.vector, id));
    lemma_rank_worth(rank_in(a.graph, id));
    lemma_rank_worth(rank_in(a.entity, id));
}

proof fn lemma_named_len(names: Seq<Seq<char>>, entries: Seq<ItemView>, n: nat)
    ensures
        named_entries(names, entries, n).len() <= n,
    decreases n,
{
    if n > 0 {
        lemma_named_len(names, entries, (n - 1) as nat);
    }
}

} // verus!
