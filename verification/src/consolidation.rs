//! What consolidating memories rests on: reading answers of a model, comparing texts, and
//! planning the memories that come out.

use crate::ordered::{in_order, sort_texts};
use crate::select::filter_items;
use crate::store::{latest, observed, take_latest};
use crate::text::{alphanumeric, byte_len, chars_of, contains, count_bytes, count_chars, find,
    has_sub, hex, list_has, lower, lowercase, position_of, push_hex, rows, same, split_chars, split_where,
    string_of, texts, trim, trim_chars, trimmed};
use crate::tokens::{distinct_of, distinct_words, distinct_words_hold_all, overlap, overlap_of};
use crate::types::{item_views, text_at, ItemView, MemoryItem};
use std::collections::hash_map::DefaultHasher;
use std::hash::Hasher;
use vstd::prelude::*;
use vstd::slice::*;
use vstd::std_specs::hash::DefaultHasherAdditionalSpecFns;
use vstd::string::*;
use vstd::utf8::encode_utf8;

verus! {

// ---------------------------------------------------------------------------
// Answers of a model
// ---------------------------------------------------------------------------

/// What stands between `mark` and the fence that follows it.
pub open spec fn fenced(t: Seq<char>, mark: Seq<char>) -> Option<Seq<char>> {
    match find(t, mark) {
        Some(i) => {
            let rest = t.skip(i + mark.len());
            match find(rest, "```"@) {
                Some(e) => Some(trim(rest.take(e))),
                None => None,
            }
        },
        None => None,
    }
}

/// The last position of a character.
pub open spec fn last_at(t: Seq<char>, c: char) -> Option<int>
    decreases t.len(),
{
    if t.len() == 0 {
        None
    } else if t.last() == c {
        Some(t.len() - 1)
    } else {
        last_at(t.drop_last(), c)
    }
}

/// The text from the first opening to the last closing bracket.
pub open spec fn bracketed(t: Seq<char>) -> Seq<char> {
    match (find(t, "["@), last_at(t, ']')) {
        (Some(i), Some(j)) => t.subrange(i, j + 1),
        _ => t,
    }
}

/// The JSON of an answer: what stands in a fence, or between brackets, or all of it.
pub open spec fn json_part(response: Seq<char>) -> Seq<char> {
    let t = trim(response);
    match fenced(t, "```json"@) {
        Some(s) => s,
        None => match fenced(t, "```"@) {
            Some(s) => s,
            None => bracketed(t),
        },
    }
}

/// Whether no closing bracket stands alone before an opening one, unless there is a fence.
pub open spec fn brackets_match(response: Seq<char>) -> bool {
    let t = trim(response);
    fenced(t, "```json"@) is Some || fenced(t, "```"@) is Some || match (find(t, "["@), last_at(t, ']')) {
        (Some(i), Some(j)) => i <= j,
        _ => true,
    }
}

fn find_fenced(t: &[char], mark: &[char]) -> (r: Option<Vec<char>>)
    ensures
        (match r {
            Some(s) => Some(s@),
            None => None,
        }) == fenced(t@, mark@),
{
    let fence = chars_of("```");
    match position_of(t, mark) {
        Some(i) => {
            let n: usize = t.len();
            let k: usize = mark.len();
            let rest = slice_subrange(t, i + k, n);
            assert(rest@ =~= t@.skip(i + mark@.len()));
            match position_of(rest, fence.as_slice()) {
                Some(e) => {
                    let inner = slice_subrange(rest, 0, e);
                    assert(inner@ =~= rest@.take(e as int));
                    Some(crate::text::copy_chars(trim_chars(inner)))
                },
                None => None,
            }
        },
        None => None,
    }
}

fn find_last(t: &[char], c: char) -> (r: Option<usize>)
    ensures
        match r {
            Some(i) => last_at(t@, c) == Some(i as int) && i < t@.len(),
            None => last_at(t@, c) is None,
        },
{
    let mut i: usize = t.len();
    assert(t@.take(i as int) =~= t@);
    while i > 0
        invariant
            i <= t@.len(),
            last_at(t@.take(i as int), c) == last_at(t@, c),
        decreases i,
    {
        assert(t@.take(i as int).drop_last() =~= t@.take(i - 1));
        assert(t@.take(i as int).last() == t@[i - 1]);
        if t[i - 1] == c {
            return Some(i - 1);
        }
        i -= 1;
    }
    None
}

/// Whether the JSON of the answer can be taken out.
pub fn can_extract_json(response: &str) -> (r: bool)
    ensures
        r == brackets_match(response@),
{
    let cs = chars_of(response);
    let t = trim_chars(cs.as_slice());
    let named = chars_of("```json");
    let plain = chars_of("```");
    let open = chars_of("[");
    if find_fenced(t, named.as_slice()).is_some() || find_fenced(t, plain.as_slice()).is_some() {
        return true;
    }
    match (position_of(t, open.as_slice()), find_last(t, ']')) {
        (Some(i), Some(j)) => i <= j,
        _ => true,
    }
}

/// The JSON of an answer.
pub fn extract_json_from_response(response: &str) -> (r: String)
    requires
        brackets_match(response@),
    ensures
        r@ == json_part(response@),
{
    let cs = chars_of(response);
    let t = trim_chars(cs.as_slice());
    let named = chars_of("```json");
    let plain = chars_of("```");
    let open = chars_of("[");
    if let Some(s) = find_fenced(t, named.as_slice()) {
        return string_of(s.as_slice());
    }
    if let Some(s) = find_fenced(t, plain.as_slice()) {
        return string_of(s.as_slice());
    }
    match (position_of(t, open.as_slice()), find_last(t, ']')) {
        (Some(i), Some(j)) => {
            let n: usize = t.len();
            assert(j < n);
            string_of(slice_subrange(t, i, j + 1))
        },
        _ => string_of(t),
    }
}

// ---------------------------------------------------------------------------
// Lists
// ---------------------------------------------------------------------------

/// The texts of `a`, then those of `b` that do not stand before them.
pub open spec fn joined(a: Seq<Seq<char>>, b: Seq<Seq<char>>) -> Seq<Seq<char>>
    decreases b.len(),
{
    if b.len() == 0 {
        a
    } else {
        let rest = joined(a, b.drop_last());
        if rest.contains(b.last()) {
            rest
        } else {
            rest.push(b.last())
        }
    }
}

/// The texts of `a`, then the new ones of `b`, each once.
pub fn union_strings(a: &Vec<String>, b: &Vec<String>) -> (out: Vec<String>)
    ensures
        texts(out@) == joined(distinct_words(texts(a@)), texts(b@)),
{
    let ghost all = texts(b@);
    let ghost once = distinct_words(texts(a@));
    let mut out = distinct_of(a);
    let mut i: usize = 0;
    assert(joined(once, all.take(0)) == once);
    while i < b.len()
        invariant
            i <= b@.len(),
            all == texts(b@),
            texts(out@) == joined(once, all.take(i as int)),
        decreases b@.len() - i,
    {
        proof {
            assert(all.take(i + 1).drop_last() =~= all.take(i as int));
            assert(all.take(i + 1).last() == b@[i as int]@);
        }
        if !list_has(&out, b[i].as_str()) {
            let ghost prev = texts(out@);
            out.push(b[i].clone());
            assert(texts(out@) =~= prev.push(b@[i as int]@));
        }
        i += 1;
    }
    assert(all.take(i as int) =~= all);
    out
}

/// No two texts of a union are equal, whatever repeats stand in the lists.
pub proof fn union_repeats_nothing(a: Seq<Seq<char>>, b: Seq<Seq<char>>)
    ensures
        forall|i: int, j: int|
            0 <= i < j < joined(distinct_words(a), b).len() ==> #[trigger] joined(distinct_words(a), b)[i]
                != #[trigger] joined(distinct_words(a), b)[j],
    decreases b.len(),
{
    if b.len() == 0 {
        distinct_words_hold_all(a);
    } else {
        union_repeats_nothing(a, b.drop_last());
        let rest = joined(distinct_words(a), b.drop_last());
        let r = joined(distinct_words(a), b);
        assert forall|i: int, j: int| 0 <= i < j < r.len() implies #[trigger] r[i] != #[trigger] r[j] by {
            assert(r[i] == rest[i]);
            if j == rest.len() {
                assert(rest.contains(rest[i]));
            }
        }
    }
}

/// A union begins with the texts of the first list, each once, in their order.
pub proof fn union_keeps_first_list(a: Seq<Seq<char>>, b: Seq<Seq<char>>)
    ensures
        distinct_words(a).len() <= joined(distinct_words(a), b).len(),
        joined(distinct_words(a), b).take(distinct_words(a).len() as int) == distinct_words(a),
    decreases b.len(),
{
    let d = distinct_words(a);
    if b.len() == 0 {
        assert(d.take(d.len() as int) =~= d);
    } else {
        union_keeps_first_list(a, b.drop_last());
        let rest = joined(d, b.drop_last());
        assert(joined(d, b).take(d.len() as int) =~= rest.take(d.len() as int));
    }
}

/// A union holds what either list holds, and nothing else.
pub proof fn union_holds_both(a: Seq<Seq<char>>, b: Seq<Seq<char>>, x: Seq<char>)
    ensures
        joined(a, b).contains(x) <==> a.contains(x) || b.contains(x),
    decreases b.len(),
{
    if b.len() > 0 {
        let p = b.drop_last();
        union_holds_both(a, p, x);
        let rest = joined(a, p);
        if b.contains(x) {
            let i = b.index_of(x);
            if i < p.len() {
                assert(p[i] == x);
            }
        }
        if p.contains(x) {
            assert(b[p.index_of(x)] == x);
        }
        if !rest.contains(b.last()) {
            let r = rest.push(b.last());
            assert(r[rest.len() as int] == b.last());
            if rest.contains(x) {
                assert(r[rest.index_of(x)] == x);
            }
            if r.contains(x) {
                let k = r.index_of(x);
                if k < rest.len() {
                    assert(rest[k] == x);
                }
            }
        }
        if x == b.last() {
            assert(b[b.len() - 1] == x);
        }
    }
}

// ---------------------------------------------------------------------------
// Keywords
// ---------------------------------------------------------------------------

/// Is neither a letter nor a digit.
pub open spec fn between_words() -> spec_fn(char) -> bool {
    |c: char| !alphanumeric(c)
}

/// The pieces in lower case that have two characters at least.
pub open spec fn long_words(pieces: Seq<Seq<char>>) -> Seq<Seq<char>>
    decreases pieces.len(),
{
    if pieces.len() == 0 {
        Seq::<Seq<char>>::empty()
    } else {
        let rest = long_words(pieces.drop_last());
        let w = lowercase(pieces.last());
        if w.len() >= 2 {
            rest.push(w)
        } else {
            rest
        }
    }
}

/// Is a Chinese character.
pub open spec fn is_han(c: char) -> bool {
    alphanumeric(c) && 0x4E00 <= c as u32 <= 0x9FFF
}

/// The Chinese characters of a text, each as a word.
pub open spec fn han_words(s: Seq<char>) -> Seq<Seq<char>>
    decreases s.len(),
{
    if s.len() == 0 {
        Seq::<Seq<char>>::empty()
    } else {
        let rest = han_words(s.drop_last());
        if is_han(s.last()) {
            rest.push(seq![s.last()])
        } else {
            rest
        }
    }
}

/// The keywords of a text: its words of two characters or more, and its Chinese characters,
/// each once.
pub open spec fn keywords_in(s: Seq<char>) -> Seq<Seq<char>> {
    distinct_words(long_words(split_where(s, between_words())) + han_words(s))
}

/// The keywords of a text.
pub fn extract_keywords(text: &str) -> (out: Vec<String>)
    ensures
        texts(out@) == keywords_in(text@),
{
    let cs = chars_of(text);
    let sep = |c: char| -> (b: bool)
        ensures
            b == !alphanumeric(c),
        { !c.is_alphanumeric() };
    let pieces = split_chars(cs.as_slice(), sep, Ghost(between_words()));
    let ghost all = rows(pieces@);
    let mut list: Vec<String> = Vec::new();
    let mut i: usize = 0;
    assert(texts(list@) =~= long_words(all.take(0)));
    while i < pieces.len()
        invariant
            i <= pieces@.len(),
            all == rows(pieces@),
            texts(list@) == long_words(all.take(i as int)),
        decreases pieces@.len() - i,
    {
        proof {
            assert(all.take(i + 1).drop_last() =~= all.take(i as int));
            assert(all.take(i + 1).last() == pieces@[i as int]@);
        }
        let piece = string_of(pieces[i].as_slice());
        let w = lower(piece.as_str());
        if count_chars(w.as_str()) >= 2 {
            let ghost prev = texts(list@);
            list.push(w);
            assert(texts(list@) =~= prev.push(w@));
        }
        i += 1;
    }
    assert(all.take(i as int) =~= all);
    let ghost long = texts(list@);
    let mut k: usize = 0;
    assert(texts(list@) =~= long + han_words(text@.take(0)));
    while k < cs.len()
        invariant
            k <= cs@.len(),
            cs@ == text@,
            texts(list@) == long + han_words(text@.take(k as int)),
        decreases cs@.len() - k,
    {
        let c = cs[k];
        proof {
            assert(text@.take(k + 1).drop_last() =~= text@.take(k as int));
            assert(text@.take(k + 1).last() == c);
        }
        if c.is_alphanumeric() && c as u32 >= 0x4E00 && c as u32 <= 0x9FFF {
            let ghost prev = texts(list@);
            let mut one: String = String::new();
            one.push(c);
            assert(one@ =~= seq![c]);
            list.push(one);
            assert(texts(list@) =~= prev.push(seq![c]));
            assert(texts(list@) =~= long + han_words(text@.take(k + 1)));
        }
        k += 1;
    }
    assert(text@.take(k as int) =~= text@);
    distinct_of(&list)
}

// ---------------------------------------------------------------------------
// What says the same
// ---------------------------------------------------------------------------

/// Ends a sentence or a part of one.
pub open spec fn is_stop() -> spec_fn(char) -> bool {
    |c: char| c == '。' || c == '；' || c == '.' || c == ';'
}

/// The sentences that say something: six characters or more, without white space around
/// them.
pub open spec fn telling(pieces: Seq<Seq<char>>) -> Seq<Seq<char>>
    decreases pieces.len(),
{
    if pieces.len() == 0 {
        Seq::<Seq<char>>::empty()
    } else {
        let rest = telling(pieces.drop_last());
        let t = trim(pieces.last());
        if t.len() >= 6 {
            rest.push(t)
        } else {
            rest
        }
    }
}

/// How many of the sentences stand in the text.
pub open spec fn count_held(text: Seq<char>, list: Seq<Seq<char>>) -> nat
    decreases list.len(),
{
    if list.len() == 0 {
        0
    } else {
        count_held(text, list.drop_last()) + (if has_sub(text, list.last()) {
            1nat
        } else {
            0nat
        })
    }
}

/// Whether a new text says hardly more than the one that is there: more than seven tenths
/// of its sentences stand there, or all of it where it has no sentence that says something.
pub open spec fn says_no_more(there: Seq<char>, new: Seq<char>) -> bool {
    let list = telling(split_where(new, is_stop()));
    if list.len() == 0 {
        byte_len(trim(new)) >= 6 && has_sub(there, trim(new))
    } else {
        count_held(there, list) * 10 > list.len() * 7
    }
}

/// Whether a new text says hardly more than the one that is there.
pub fn is_content_redundant(existing: &str, new_summary: &str) -> (r: bool)
    ensures
        r == says_no_more(existing@, new_summary@),
{
    let cs = chars_of(new_summary);
    let sep = |c: char| -> (b: bool)
        ensures
            b == (c == '。' || c == '；' || c == '.' || c == ';'),
        { c == '。' || c == '；' || c == '.' || c == ';' };
    let pieces = split_chars(cs.as_slice(), sep, Ghost(is_stop()));
    let ghost all = rows(pieces@);
    let ghost want = telling(all);
    let mut total: usize = 0;
    let mut held: usize = 0;
    let mut i: usize = 0;
    assert(all.take(0) =~= Seq::empty());
    while i < pieces.len()
        invariant
            i <= pieces@.len(),
            all == rows(pieces@),
            total <= i,
            held <= total,
            total == telling(all.take(i as int)).len(),
            held == count_held(existing@, telling(all.take(i as int))),
        decreases pieces@.len() - i,
    {
        let ghost before = telling(all.take(i as int));
        proof {
            assert(all.take(i + 1).drop_last() =~= all.take(i as int));
            assert(all.take(i + 1).last() == pieces@[i as int]@);
        }
        let t = trim_chars(pieces[i].as_slice());
        if t.len() >= 6 {
            let s = string_of(t);
            assert(before.push(t@).drop_last() =~= before);
            if contains(existing, s.as_str()) {
                held += 1;
            }
            total += 1;
        }
        i += 1;
    }
    assert(all.take(i as int) =~= all);
    if total == 0 {
        let t = trimmed(new_summary);
        return count_bytes(t.as_str()) >= 6 && contains(existing, t.as_str());
    }
    held as u128 * 10 > total as u128 * 7
}

// ---------------------------------------------------------------------------
// Kinds of memories
// ---------------------------------------------------------------------------

/// Whether a memory is of a kind: by a tag or by its metadata.
pub open spec fn of_kind(m: ItemView, kind: Seq<char>) -> bool {
    m.tags.contains(kind) || text_at(m.metadata, "memory_type"@) == Some(kind)
}

/// Whether a memory is of a kind.
pub fn is_of_kind(m: &MemoryItem, kind: &str) -> (r: bool)
    ensures
        r == of_kind(m@, kind@),
{
    assert(m@.tags == texts(m.tags@));
    list_has(&m.tags, kind) || match m.metadata.text("memory_type") {
        Some(s) => same(s.as_str(), kind),
        None => false,
    }
}

/// Whether a memory waits to be summed up: it is short-term, and neither a thought nor
/// something that was only watched.
pub open spec fn is_buffered() -> spec_fn(ItemView) -> bool {
    |m: ItemView|
        of_kind(m, "short_term"@) && !of_kind(m, "inner_monologue"@) && !of_kind(
            m,
            "observation_note"@,
        ) && !observed(m.metadata)
}

/// Whether a memory waits to be summed up.
pub fn waits_for_summary(m: &MemoryItem) -> (r: bool)
    ensures
        r == is_buffered()(m@),
{
    is_of_kind(m, "short_term") && !is_of_kind(m, "inner_monologue") && !is_of_kind(
        m,
        "observation_note",
    ) && !crate::store::is_observer_perspective(&m.metadata)
}

/// The memories that wait to be summed up.
pub fn buffered_memories(all: &[MemoryItem]) -> (out: Vec<MemoryItem>)
    ensures
        item_views(out@) == item_views(all@).filter(is_buffered()),
{
    let test = |m: &MemoryItem| -> (r: bool)
        ensures
            r == is_buffered()(m@),
        { waits_for_summary(m) };
    filter_items(all, test, Ghost(is_buffered()))
}

/// Is of that kind.
pub open spec fn kind_test(kind: Seq<char>) -> spec_fn(ItemView) -> bool {
    |m: ItemView| of_kind(m, kind)
}

/// The memories of a kind.
pub fn memories_of_kind(all: &[MemoryItem], kind: &str) -> (out: Vec<MemoryItem>)
    ensures
        item_views(out@) == item_views(all@).filter(kind_test(kind@)),
{
    let test = |m: &MemoryItem| -> (r: bool)
        ensures
            r == of_kind(m@, kind@),
        { is_of_kind(m, kind) };
    filter_items(all, test, Ghost(kind_test(kind@)))
}

/// How many earlier summaries are looked at.
pub const RECENT_SESSION_SUMMARY_LIMIT: usize = 5;

/// The latest summaries of sessions.
pub open spec fn recent_summaries(all: Seq<ItemView>) -> Seq<ItemView> {
    latest(all.filter(kind_test("session_summary"@)), RECENT_SESSION_SUMMARY_LIMIT as int)
}

/// The latest summaries of sessions.
pub fn get_recent_session_summaries(all: &[MemoryItem]) -> (out: Vec<MemoryItem>)
    ensures
        item_views(out@) == recent_summaries(item_views(all@)),
{
    let items = memories_of_kind(all, "session_summary");
    take_latest(items.as_slice(), RECENT_SESSION_SUMMARY_LIMIT)
}

// ---------------------------------------------------------------------------
// The summary that a new one continues
// ---------------------------------------------------------------------------

/// How alike two summaries are that speak of the same, in millionths.
pub const SESSION_TOPIC_SIMILARITY_THRESHOLD: i64 = 600_000;

/// The position of the most alike among the first `n`, and how alike it is: beyond the
/// threshold, the first of equals. Those that could not be compared are passed over.
pub open spec fn most_alike(sims: Seq<Option<i64>>, n: nat) -> (Option<int>, i64)
    decreases n,
{
    if n == 0 {
        (None, SESSION_TOPIC_SIMILARITY_THRESHOLD)
    } else {
        let p = most_alike(sims, (n - 1) as nat);
        match sims[n - 1] {
            Some(s) => if s > p.1 {
                (Some(n - 1), s)
            } else {
                p
            },
            None => p,
        }
    }
}

/// The position of the summary that a new one continues, by how alike their embeddings are.
pub fn find_merge_target(sims: &Vec<Option<i64>>) -> (r: Option<usize>)
    ensures
        (match r {
            Some(i) => Some(i as int),
            None => None,
        }) == most_alike(sims@, sims@.len()).0,
        r is Some ==> r->0 < sims@.len(),
{
    let mut best: Option<usize> = None;
    let mut sim: i64 = SESSION_TOPIC_SIMILARITY_THRESHOLD;
    let mut i: usize = 0;
    while i < sims.len()
        invariant
            i <= sims@.len(),
            (match best {
                Some(k) => Some(k as int),
                None => None,
            }, sim) == most_alike(sims@, i as nat),
            best is Some ==> best->0 < i,
        decreases sims@.len() - i,
    {
        if let Some(s) = sims[i] {
            if s > sim {
                sim = s;
                best = Some(i);
            }
        }
        i += 1;
    }
    best
}

/// The position of the text with the most keywords in common among the first `n`, and how
/// many of how many: more than six tenths, the first of equals.
pub open spec fn most_shared(new: Seq<Seq<char>>, there: Seq<ItemView>, n: nat) -> (Option<int>, nat, nat)
    decreases n,
{
    if n == 0 {
        (None, 6, 10)
    } else {
        let p = most_shared(new, there, (n - 1) as nat);
        let words = keywords_in(there[n - 1].content);
        let o = overlap(new, words);
        if words.len() > 0 && o.0 * p.2 > p.1 * o.1 {
            (Some(n - 1), o.0, o.1)
        } else {
            p
        }
    }
}

/// The position of the summary that a new one continues, by keywords.
pub open spec fn shared_target(new: Seq<char>, there: Seq<ItemView>) -> Option<int> {
    let words = keywords_in(new);
    if words.len() == 0 {
        None
    } else {
        most_shared(words, there, there.len()).0
    }
}

/// The position of the summary that a new one continues, by keywords.
pub fn find_merge_target_by_keywords(new_text: &str, recent: &[MemoryItem]) -> (r: Option<usize>)
    ensures
        (match r {
            Some(i) => Some(i as int),
            None => None,
        }) == shared_target(new_text@, item_views(recent@)),
        r is Some ==> r->0 < recent@.len(),
{
    let ghost all = item_views(recent@);
    let new = extract_keywords(new_text);
    assert(texts(new@).len() == new@.len());
    if new.len() == 0 {
        return None;
    }
    let mut best: Option<usize> = None;
    let mut num: u128 = 6;
    let mut den: u128 = 10;
    let mut i: usize = 0;
    while i < recent.len()
        invariant
            i <= recent@.len(),
            all == item_views(recent@),
            num <= 0x2_0000_0000_0000_0000,
            den <= 0x2_0000_0000_0000_0000,
            (match best {
                Some(k) => Some(k as int),
                None => None,
            }, num as nat, den as nat) == most_shared(texts(new@), all, i as nat),
            best is Some ==> best->0 < i,
        decreases recent@.len() - i,
    {
        assert(all[i as int] == recent@[i as int]@);
        let words = extract_keywords(recent[i].content.as_str());
        assert(texts(words@).len() == words@.len());
        if words.len() > 0 {
            let (n, union) = overlap_of(&new, &words);
            let more = is_larger(n as u128, union, num, den);
            if more {
                best = Some(i);
                num = n as u128;
                den = union;
            }
        }
        i += 1;
    }
    best
}

/// Whether `a / b` is larger than `c / d`.
fn is_larger(a: u128, b: u128, c: u128, d: u128) -> (r: bool)
    requires
        a <= 0x2_0000_0000_0000_0000,
        b <= 0x2_0000_0000_0000_0000,
        c <= 0x2_0000_0000_0000_0000,
        d <= 0x2_0000_0000_0000_0000,
    ensures
        r == (a * d > c * b),
{
    if a < 0x1_0000_0000_0000_0000 && b < 0x1_0000_0000_0000_0000 && c < 0x1_0000_0000_0000_0000 && d
        < 0x1_0000_0000_0000_0000 {
        proof {
            lemma_product(a as int, d as int);
            lemma_product(c as int, b as int);
        }
        a * d > c * b
    } else {
        let x = wide_product(a, d);
        let y = wide_product(c, b);
        x.0 > y.0 || (x.0 == y.0 && x.1 > y.1)
    }
}

proof fn lemma_product(a: int, b: int)
    requires
        0 <= a < 0x1_0000_0000_0000_0000,
        0 <= b < 0x1_0000_0000_0000_0000,
    ensures
        0 <= a * b <= 0xffff_ffff_ffff_ffff_ffff_ffff_ffff_ffff,
{
    assert(0 <= a * b <= 0xffff_ffff_ffff_ffff * 0xffff_ffff_ffff_ffff) by (nonlinear_arith)
        requires
            0 <= a <= 0xffff_ffff_ffff_ffff,
            0 <= b <= 0xffff_ffff_ffff_ffff,
    ;
}

/// The product of two numbers, in units of two to the sixty-fourth and ones.
fn wide_product(a: u128, b: u128) -> (r: (u128, u128))
    requires
        a <= 0x2_0000_0000_0000_0000,
        b <= 0x2_0000_0000_0000_0000,
    ensures
        r.0 * 0x1_0000_0000_0000_0000 + r.1 == a * b,
        r.1 < 0x1_0000_0000_0000_0000,
{
    let h: u128 = a / 0x1_0000_0000_0000_0000;
    let l: u128 = a % 0x1_0000_0000_0000_0000;
    let g: u128 = b / 0x1_0000_0000_0000_0000;
    let k: u128 = b % 0x1_0000_0000_0000_0000;
    proof {
        lemma_product(l as int, k as int);
        assert(h <= 2 && g <= 2);
        assert(0 <= h * k <= 2 * 0xffff_ffff_ffff_ffff) by (nonlinear_arith)
            requires
                0 <= h <= 2,
                0 <= k <= 0xffff_ffff_ffff_ffff,
        ;
        assert(0 <= l * g <= 2 * 0xffff_ffff_ffff_ffff) by (nonlinear_arith)
            requires
                0 <= g <= 2,
                0 <= l <= 0xffff_ffff_ffff_ffff,
        ;
        assert(0 <= h * g <= 4) by (nonlinear_arith)
            requires
                0 <= h <= 2,
                0 <= g <= 2,
        ;
    }
    let low: u128 = l * k;
    let mid: u128 = h * k + l * g;
    let top: u128 = h * g;
    let carry: u128 = low / 0x1_0000_0000_0000_0000;
    let ones: u128 = low % 0x1_0000_0000_0000_0000;
    proof {
        let w = 0x1_0000_0000_0000_0000int;
        assert(a == h * w + l);
        assert(b == g * w + k);
        assert((h * w + l) * (g * w + k) == (h * g * w + h * k + l * g) * w + l * k) by (nonlinear_arith);
        assert(low == carry * w + ones);
        assert((top * w + mid + carry) * w + ones == (h * g * w + h * k + l * g) * w + l * k) by (
        nonlinear_arith)
            requires
                top == h * g,
                mid == h * k + l * g,
                l * k == carry * w + ones,
        ;
    }
    (top * 0x1_0000_0000_0000_0000 + mid + carry, ones)
}

// ---------------------------------------------------------------------------
// Fingerprints
// ---------------------------------------------------------------------------

/// What a hasher is fed with for a list of texts.
pub open spec fn hash_input(s: Seq<Seq<char>>) -> Seq<Seq<u8>>
    decreases s.len(),
{
    if s.len() == 0 {
        Seq::<Seq<u8>>::empty()
    } else {
        hash_input(s.drop_last()).push(encode_utf8(s.last())).push(seq![0xffu8])
    }
}

/// The fingerprint of a list of identifiers, whatever their order.
pub open spec fn fingerprint(ids: Seq<Seq<char>>) -> Seq<char> {
    hex(DefaultHasher::spec_finish(hash_input(in_order(ids))) as nat, 16)
}

/// The fingerprint of a list of identifiers.
pub fn source_fingerprint(source_ids: &Vec<String>) -> (r: String)
    ensures
        r@ == fingerprint(texts(source_ids@)),
{
    let sorted = sort_texts(source_ids);
    let ghost all = texts(sorted@);
    let end = [0xffu8];
    let mut hasher = DefaultHasher::new();
    let mut i: usize = 0;
    assert(hasher@ =~= hash_input(all.take(0)));
    assert(end@ =~= seq![0xffu8]);
    while i < sorted.len()
        invariant
            i <= sorted@.len(),
            all == texts(sorted@),
            end@ == seq![0xffu8],
            hasher@ == hash_input(all.take(i as int)),
        decreases sorted@.len() - i,
    {
        proof {
            assert(all.take(i + 1).drop_last() =~= all.take(i as int));
            assert(all.take(i + 1).last() == sorted@[i as int]@);
        }
        hasher.write(sorted[i].as_str().as_bytes());
        hasher.write(vstd::array::array_as_slice(&end));
        i += 1;
        assert(hasher@ =~= hash_input(all.take(i as int)));
    }
    assert(all.take(i as int) =~= all);
    let h: u64 = hasher.finish();
    let mut out: String = String::new();
    push_hex(&mut out, h, 16);
    assert(out@ =~= fingerprint(texts(source_ids@)));
    out
}

/// The same identifiers have the same fingerprint in whatever order they come.
pub proof fn fingerprint_ignores_order(a: Seq<Seq<char>>, b: Seq<Seq<char>>)
    requires
        a.to_multiset() == b.to_multiset(),
    ensures
        fingerprint(a) == fingerprint(b),
{
    crate::ordered::sorting_ignores_order(a, b);
}

} // verus!
