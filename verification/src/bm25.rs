//! What the words of memories weigh: how often each stands in a memory and in how many
//! memories. The scores themselves are computed by the caller.

use crate::assoc::Assoc;
use crate::retriever::{frequency, stored_frequency, word_frequencies};
use crate::text::{copy_strings, texts};
use crate::tokenize::{tokenize, tokenize_lists, tokens_in, tokens_of_texts};
use crate::types::{item_views, ItemView, MemoryItem};
use vstd::prelude::*;
use vstd::string::*;

verus! {

/// The texts of a memory in which words are counted: its content, its tags and its
/// description.
pub open spec fn entry_texts(m: ItemView) -> Seq<Seq<char>> {
    let a = seq![m.content] + m.tags;
    match m.description {
        Some(d) => a.push(d),
        None => a,
    }
}

/// The words of a memory.
pub open spec fn entry_tokens(m: ItemView) -> Seq<Seq<char>> {
    tokens_of_texts(entry_texts(m))
}

fn texts_of_entry(e: &MemoryItem) -> (out: Vec<String>)
    ensures
        texts(out@) == entry_texts(e@),
{
    let mut out: Vec<String> = Vec::new();
    out.push(e.content.clone());
    let mut tags = copy_strings(&e.tags);
    let ghost t = tags@;
    out.append(&mut tags);
    assert(texts(out@) =~= seq![e@.content] + texts(t));
    assert(e@.tags == texts(e.tags@));
    if let Some(d) = &e.description {
        let ghost prev = texts(out@);
        out.push(d.clone());
        assert(texts(out@) =~= prev.push(d@));
    }
    out
}

/// How often each word stands in a memory, and how many words it has.
pub struct DocTokens {
    pub freqs: Assoc<usize>,
    pub token_count: usize,
}

/// What is counted of a memory.
pub open spec fn counts_entry(d: DocTokens, m: ItemView) -> bool {
    &&& forall|w: Seq<char>| #[trigger]
        stored_frequency(d.freqs@, w) == frequency(entry_tokens(m), w)
    &&& d.token_count == entry_tokens(m).len()
}

/// How often each word stands in each memory.
pub fn tokenize_entries(entries: &[MemoryItem]) -> (out: Vec<DocTokens>)
    ensures
        out@.len() == entries@.len(),
        forall|i: int| 0 <= i < out@.len() ==> counts_entry(#[trigger] out@[i], entries@[i]@),
{
    let mut lists: Vec<Vec<String>> = Vec::new();
    let mut i: usize = 0;
    while i < entries.len()
        invariant
            i <= entries@.len(),
            lists@.len() == i,
            forall|k: int| 0 <= k < i ==> texts((#[trigger] lists@[k])@) == entry_texts(entries@[k]@),
        decreases entries@.len() - i,
    {
        lists.push(texts_of_entry(&entries[i]));
        i += 1;
    }
    let tokens = tokenize_lists(&lists);
    let mut out: Vec<DocTokens> = Vec::new();
    let mut k: usize = 0;
    while k < tokens.len()
        invariant
            k <= tokens@.len(),
            tokens@.len() == entries@.len(),
            lists@.len() == entries@.len(),
            forall|j: int|
                0 <= j < lists@.len() ==> texts((#[trigger] lists@[j])@) == entry_texts(entries@[j]@),
            forall|j: int|
                0 <= j < tokens@.len() ==> texts((#[trigger] tokens@[j])@) == tokens_of_texts(
                    texts(lists@[j]@),
                ),
            out@.len() == k,
            forall|j: int| 0 <= j < k ==> counts_entry(#[trigger] out@[j], entries@[j]@),
        decreases tokens@.len() - k,
    {
        let d = DocTokens { freqs: word_frequencies(&tokens[k]), token_count: tokens[k].len() };
        assert(texts(lists@[k as int]@) == entry_texts(entries@[k as int]@));
        assert(texts(tokens@[k as int]@).len() == tokens@[k as int]@.len());
        assert(counts_entry(d, entries@[k as int]@));
        out.push(d);
        k += 1;
    }
    out
}

/// How often each word stands in a memory.
pub fn tokenize_entry(e: &MemoryItem) -> (d: DocTokens)
    ensures
        counts_entry(d, e@),
{
    let mut lists: Vec<Vec<String>> = Vec::new();
    lists.push(texts_of_entry(e));
    let tokens = tokenize_lists(&lists);
    assert(texts(tokens@[0]@) == tokens_of_texts(texts(lists@[0]@)));
    assert(texts(tokens@[0]@).len() == tokens@[0]@.len());
    DocTokens { freqs: word_frequencies(&tokens[0]), token_count: tokens[0].len() }
}

/// In how many of the first `n` memories a word stands.
pub open spec fn document_frequency(s: Seq<ItemView>, w: Seq<char>, n: nat) -> nat
    decreases n,
{
    if n == 0 {
        0
    } else {
        document_frequency(s, w, (n - 1) as nat) + (if frequency(entry_tokens(s[n - 1]), w) > 0 {
            1nat
        } else {
            0nat
        })
    }
}

/// In how many memories a word stands.
fn count_documents(
    docs: &Vec<DocTokens>,
    Ghost(entries): Ghost<Seq<ItemView>>,
    word: &str,
) -> (n: usize)
    requires
        docs@.len() == entries.len(),
        forall|i: int| 0 <= i < docs@.len() ==> counts_entry(#[trigger] docs@[i], entries[i]),
    ensures
        n == document_frequency(entries, word@, entries.len()),
        n <= docs@.len(),
{
    let mut n: usize = 0;
    let mut i: usize = 0;
    while i < docs.len()
        invariant
            i <= docs@.len(),
            n <= i,
            docs@.len() == entries.len(),
            forall|k: int| 0 <= k < docs@.len() ==> counts_entry(#[trigger] docs@[k], entries[k]),
            n == document_frequency(entries, word@, i as nat),
        decreases docs@.len() - i,
    {
        assert(stored_frequency(docs@[i as int].freqs@, word@) == frequency(
            entry_tokens(entries[i as int]),
            word@,
        ));
        let held: usize = match docs[i].freqs.get(word) {
            Some(k) => *k,
            None => 0,
        };
        if held > 0 {
            n += 1;
        }
        i += 1;
    }
    n
}

/// What the words of a query weigh in the memories.
pub struct QueryCounts {
    /// For each word of the query, in how many memories it stands.
    pub documents: Vec<usize>,
    /// For each memory and each word of the query, how often it stands there.
    pub frequencies: Vec<Vec<usize>>,
    /// How many words each memory has.
    pub lengths: Vec<usize>,
}

/// The counts of the words in the memories.
pub open spec fn counts_query(c: QueryCounts, s: Seq<ItemView>, words: Seq<Seq<char>>) -> bool {
    &&& c.documents@.len() == words.len()
    &&& forall|j: int|
        0 <= j < words.len() ==> (#[trigger] c.documents@[j]) == document_frequency(
            s,
            words[j],
            s.len(),
        )
    &&& c.frequencies@.len() == s.len()
    &&& forall|i: int| 0 <= i < s.len() ==> (#[trigger] c.frequencies@[i])@.len() == words.len()
    &&& forall|i: int, j: int|
        0 <= i < s.len() && 0 <= j < words.len() ==> (#[trigger] c.frequencies@[i]@[j]) == frequency(
            entry_tokens(s[i]),
            words[j],
        )
    &&& c.lengths@.len() == s.len()
    &&& forall|i: int| 0 <= i < s.len() ==> (#[trigger] c.lengths@[i]) == entry_tokens(s[i]).len()
}

/// Counts the words of a query in the memories; `None` where it has no words.
pub fn bm25_counts(entries: &[MemoryItem], query: &str) -> (r: Option<QueryCounts>)
    ensures
        r is None == (tokens_in(crate::tokenize::search_cut(query@)).len() == 0),
        r is Some ==> counts_query(
            r->0,
            item_views(entries@),
            tokens_in(crate::tokenize::search_cut(query@)),
        ),
{
    let words = tokenize(query);
    assert(texts(words@).len() == words@.len());
    if words.len() == 0 {
        return None;
    }
    let c = count_words(entries, &words);
    Some(c)
}

/// Counts the words in the memories.
pub fn count_words(entries: &[MemoryItem], words: &Vec<String>) -> (c: QueryCounts)
    ensures
        counts_query(c, item_views(entries@), texts(words@)),
{
    let ghost s = item_views(entries@);
    let ghost ws = texts(words@);
    let docs = tokenize_entries(entries);
    assert forall|i: int| 0 <= i < docs@.len() implies counts_entry(#[trigger] docs@[i], s[i]) by {
        assert(s[i] == entries@[i]@);
    }
    let mut documents: Vec<usize> = Vec::new();
    let mut j: usize = 0;
    while j < words.len()
        invariant
            j <= words@.len(),
            ws == texts(words@),
            docs@.len() == s.len(),
            forall|i: int| 0 <= i < docs@.len() ==> counts_entry(#[trigger] docs@[i], s[i]),
            documents@.len() == j,
            forall|k: int|
                0 <= k < j ==> (#[trigger] documents@[k]) == document_frequency(s, ws[k], s.len()),
        decreases words@.len() - j,
    {
        assert(ws[j as int] == words@[j as int]@);
        documents.push(count_documents(&docs, Ghost(s), words[j].as_str()));
        j += 1;
    }
    let mut frequencies: Vec<Vec<usize>> = Vec::new();
    let mut lengths: Vec<usize> = Vec::new();
    let mut i: usize = 0;
    while i < docs.len()
        invariant
            i <= docs@.len(),
            ws == texts(words@),
            docs@.len() == s.len(),
            forall|k: int| 0 <= k < docs@.len() ==> counts_entry(#[trigger] docs@[k], s[k]),
            frequencies@.len() == i,
            lengths@.len() == i,
            forall|k: int| 0 <= k < i ==> (#[trigger] frequencies@[k])@.len() == ws.len(),
            forall|k: int, l: int|
                0 <= k < i && 0 <= l < ws.len() ==> (#[trigger] frequencies@[k]@[l]) == frequency(
                    entry_tokens(s[k]),
                    ws[l],
                ),
            forall|k: int| 0 <= k < i ==> (#[trigger] lengths@[k]) == entry_tokens(s[k]).len(),
        decreases docs@.len() - i,
    {
        let d = &docs[i];
        assert(counts_entry(docs@[i as int], s[i as int]));
        let mut row: Vec<usize> = Vec::new();
        let mut k: usize = 0;
        while k < words.len()
            invariant
                k <= words@.len(),
                i < s.len(),
                ws == texts(words@),
                counts_entry(*d, s[i as int]),
                row@.len() == k,
                forall|l: int|
                    0 <= l < k ==> (#[trigger] row@[l]) == frequency(entry_tokens(s[i as int]), ws[l]),
            decreases words@.len() - k,
        {
            assert(ws[k as int] == words@[k as int]@);
            assert(stored_frequency(d.freqs@, ws[k as int]) == frequency(
                entry_tokens(s[i as int]),
                ws[k as int],
            ));
            row.push(
                match d.freqs.get(words[k].as_str()) {
                    Some(n) => *n,
                    None => 0,
                },
            );
            k += 1;
        }
        let ghost before = frequencies@;
        frequencies.push(row);
        lengths.push(d.token_count);
        assert forall|a: int, l: int| 0 <= a < i + 1 && 0 <= l < ws.len() implies (
        #[trigger] frequencies@[a]@[l]) == frequency(entry_tokens(s[a]), ws[l]) by {
            if a < i {
                assert(frequencies@[a] == before[a]);
                assert(before[a]@[l] == frequency(entry_tokens(s[a]), ws[l]));
            }
        }
        i += 1;
    }
    QueryCounts { documents, frequencies, lengths }
}

} // verus!
