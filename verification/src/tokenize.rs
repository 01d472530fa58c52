//! Words of a text: segmentation of Chinese by `jieba_rs`, other scripts split at
//! what is neither letter nor digit, everything in lower case.

use crate::text::{alphanumeric, chars_of, lower, lowercase, non_empty, rows, split_chars, split_where,
    string_of, texts, trim, trim_chars};
use vstd::prelude::*;

verus! {

/// Whether the character belongs to an East Asian script.
pub open spec fn is_cjk_char(c: char) -> bool {
    let n = c as u32;
    ||| 0x3000 <= n <= 0x303F
    ||| 0x3040 <= n <= 0x309F
    ||| 0x30A0 <= n <= 0x30FF
    ||| 0x3400 <= n <= 0x4DBF
    ||| 0x4E00 <= n <= 0x9FFF
    ||| 0xF900 <= n <= 0xFAFF
    ||| 0xFF00 <= n <= 0xFFEF
}

/// Whether the character belongs to an East Asian script.
pub fn is_cjk(c: char) -> (r: bool)
    ensures
        r == is_cjk_char(c),
{
    let n: u32 = c as u32;
    (0x3000 <= n && n <= 0x303F) || (0x3040 <= n && n <= 0x309F) || (0x30A0 <= n && n <= 0x30FF) || (
    0x3400 <= n && n <= 0x4DBF) || (0x4E00 <= n && n <= 0x9FFF) || (0xF900 <= n && n <= 0xFAFF) || (
    0xFF00 <= n && n <= 0xFFEF)
}

/// An ASCII letter or digit.
pub open spec fn is_ascii_alnum(c: char) -> bool {
    let n = c as u32;
    (48 <= n <= 57) || (65 <= n <= 90) || (97 <= n <= 122)
}

/// What separates the words of a piece.
pub open spec fn is_gap() -> spec_fn(char) -> bool {
    |c: char| !alphanumeric(c)
}

/// The tokens of one piece of the segmentation.
pub open spec fn piece_tokens(piece: Seq<char>) -> Seq<Seq<char>> {
    let w = trim(piece);
    if exists|i: int| 0 <= i < w.len() && is_ascii_alnum(#[trigger] w[i]) {
        non_empty(split_where(w, is_gap())).map_values(|p: Seq<char>| lowercase(p))
    } else if exists|i: int| 0 <= i < w.len() && is_cjk_char(#[trigger] w[i]) {
        seq![lowercase(w)]
    } else {
        Seq::<Seq<char>>::empty()
    }
}

/// The tokens of the pieces of a segmentation.
pub open spec fn tokens_in(pieces: Seq<Seq<char>>) -> Seq<Seq<char>>
    decreases pieces.len(),
{
    if pieces.len() == 0 {
        Seq::<Seq<char>>::empty()
    } else {
        tokens_in(pieces.drop_last()) + piece_tokens(pieces.last())
    }
}

/// The pieces into which `jieba_rs` cuts a text for searching.
pub uninterp spec fn search_cut(text: Seq<char>) -> Seq<Seq<char>>;

/// The cuts of lists of texts, one for one.
pub open spec fn are_cuts(list: Seq<Vec<String>>, out: Seq<Vec<Vec<String>>>) -> bool {
    &&& out.len() == list.len()
    &&& forall|i: int| 0 <= i < list.len() ==> (#[trigger] out[i])@.len() == list[i]@.len()
    &&& forall|i: int, j: int|
        0 <= i < list.len() && 0 <= j < list[i]@.len() ==> texts((#[trigger] out[i]@[j])@) == search_cut(
            list[i]@[j]@,
        )
}

/// `jieba_rs::Jieba::cut_for_search` of each text, with the built-in dictionary and unknown
/// words guessed: a function of the text alone. The segmentation is not spelled out.
#[verifier::external_body]
fn cut_for_search(list: &Vec<Vec<String>>) -> (r: Vec<Vec<Vec<String>>>)
    ensures
        r@.len() == list@.len(),
        forall|i: int| 0 <= i < list@.len() ==> (#[trigger] r@[i])@.len() == list@[i]@.len(),
        forall|i: int, j: int|
            0 <= i < list@.len() && 0 <= j < list@[i]@.len() ==> texts((#[trigger] r@[i]@[j])@)
                == search_cut(list@[i]@[j]@),
{
    let jieba = jieba_rs::Jieba::new();
    let cut = |t: &String| jieba.cut_for_search(t, true).iter().map(|w| w.to_string()).collect();
    list.iter().map(|l| l.iter().map(cut).collect()).collect()
}

fn any_ascii_alnum(w: &[char]) -> (r: bool)
    ensures
        r == exists|i: int| 0 <= i < w@.len() && is_ascii_alnum(#[trigger] w@[i]),
{
    let mut i: usize = 0;
    while i < w.len()
        invariant
            i <= w@.len(),
            forall|k: int| 0 <= k < i ==> !is_ascii_alnum(#[trigger] w@[k]),
        decreases w@.len() - i,
    {
        let n: u32 = w[i] as u32;
        if (48 <= n && n <= 57) || (65 <= n && n <= 90) || (97 <= n && n <= 122) {
            assert(is_ascii_alnum(w@[i as int]));
            return true;
        }
        i += 1;
    }
    false
}

fn any_cjk(w: &[char]) -> (r: bool)
    ensures
        r == exists|i: int| 0 <= i < w@.len() && is_cjk_char(#[trigger] w@[i]),
{
    let mut i: usize = 0;
    while i < w.len()
        invariant
            i <= w@.len(),
            forall|k: int| 0 <= k < i ==> !is_cjk_char(#[trigger] w@[k]),
        decreases w@.len() - i,
    {
        if is_cjk(w[i]) {
            assert(is_cjk_char(w@[i as int]));
            return true;
        }
        i += 1;
    }
    false
}

/// Adds the tokens of one piece.
fn push_piece(out: &mut Vec<String>, piece: &str)
    ensures
        texts(final(out)@) == texts(old(out)@) + piece_tokens(piece@),
{
    let ghost start = texts(out@);
    let cs = chars_of(piece);
    let w = trim_chars(cs.as_slice());
    if any_ascii_alnum(w) {
        let f = |c: char| -> (b: bool)
            ensures
                b == !alphanumeric(c),
            { !c.is_alphanumeric() };
        let parts = crate::text::drop_empty(split_chars(w, f, Ghost(is_gap())));
        let ghost all = piece_tokens(piece@);
        let mut i: usize = 0;
        assert(texts(out@) =~= start + all.take(0));
        while i < parts.len()
            invariant
                i <= parts@.len(),
                all == rows(parts@).map_values(|p: Seq<char>| lowercase(p)),
                texts(out@) == start + all.take(i as int),
            decreases parts@.len() - i,
        {
            let s = string_of(parts[i].as_slice());
            let l = lower(s.as_str());
            assert(rows(parts@)[i as int] == parts@[i as int]@);
            assert(l@ == all[i as int]);
            let ghost prev = texts(out@);
            out.push(l);
            assert(texts(out@) =~= prev.push(all[i as int]));
            i += 1;
            assert(all.take(i as int) =~= all.take(i - 1).push(all[i - 1]));
            assert(texts(out@) =~= start + all.take(i as int));
        }
        assert(all.take(i as int) =~= all);
    } else if any_cjk(w) {
        let s = string_of(w);
        let l = lower(s.as_str());
        let ghost t = l@;
        out.push(l);
        assert(texts(out@) =~= start.push(t));
        assert(texts(out@) =~= start + piece_tokens(piece@));
    } else {
        assert(texts(out@) =~= start + piece_tokens(piece@));
    }
}

/// The tokens of the pieces of a segmentation.
pub fn tokens_of_pieces(pieces: &Vec<String>) -> (out: Vec<String>)
    ensures
        texts(out@) == tokens_in(texts(pieces@)),
{
    let mut out: Vec<String> = Vec::new();
    let ghost all = texts(pieces@);
    let mut i: usize = 0;
    assert(texts(out@) =~= tokens_in(all.take(0)));
    while i < pieces.len()
        invariant
            i <= pieces@.len(),
            all == texts(pieces@),
            texts(out@) == tokens_in(all.take(i as int)),
        decreases pieces@.len() - i,
    {
        proof {
            assert(all.take(i + 1).drop_last() =~= all.take(i as int));
            assert(all.take(i + 1).last() == pieces@[i as int]@);
        }
        push_piece(&mut out, pieces[i].as_str());
        i += 1;
    }
    assert(all.take(i as int) =~= all);
    out
}

/// The tokens of texts, one list after the other.
pub open spec fn tokens_of_texts(list: Seq<Seq<char>>) -> Seq<Seq<char>>
    decreases list.len(),
{
    if list.len() == 0 {
        Seq::<Seq<char>>::empty()
    } else {
        tokens_of_texts(list.drop_last()) + tokens_in(search_cut(list.last()))
    }
}

/// The tokens of each list of texts.
pub fn tokenize_lists(list: &Vec<Vec<String>>) -> (out: Vec<Vec<String>>)
    ensures
        out@.len() == list@.len(),
        forall|i: int|
            0 <= i < out@.len() ==> texts((#[trigger] out@[i])@) == tokens_of_texts(
                texts(list@[i]@),
            ),
{
    let cuts = cut_for_search(list);
    let mut out: Vec<Vec<String>> = Vec::new();
    let mut i: usize = 0;
    while i < list.len()
        invariant
            i <= list@.len(),
            are_cuts(list@, cuts@),
            out@.len() == i,
            forall|k: int|
                0 <= k < i ==> texts((#[trigger] out@[k])@) == tokens_of_texts(texts(list@[k]@)),
        decreases list@.len() - i,
    {
        let ghost all = texts(list@[i as int]@);
        let parts = &cuts[i];
        assert(cuts@[i as int]@.len() == list@[i as int]@.len());
        let mut tokens: Vec<String> = Vec::new();
        let mut j: usize = 0;
        assert(texts(tokens@) =~= tokens_of_texts(all.take(0)));
        while j < parts.len()
            invariant
                j <= parts@.len(),
                i < list@.len(),
                parts@ == cuts@[i as int]@,
                are_cuts(list@, cuts@),
                parts@.len() == list@[i as int]@.len(),
                all == texts(list@[i as int]@),
                texts(tokens@) == tokens_of_texts(all.take(j as int)),
            decreases parts@.len() - j,
        {
            proof {
                assert(all.take(j + 1).drop_last() =~= all.take(j as int));
                assert(all.take(j + 1).last() == list@[i as int]@[j as int]@);
                assert(texts(cuts@[i as int]@[j as int]@) == search_cut(list@[i as int]@[j as int]@));
            }
            let mut more = tokens_of_pieces(&parts[j]);
            let ghost a = tokens@;
            let ghost b = more@;
            tokens.append(&mut more);
            assert(texts(tokens@) =~= texts(a) + texts(b));
            j += 1;
        }
        assert(all.take(j as int) =~= all);
        out.push(tokens);
        i += 1;
    }
    out
}

/// The tokens of a text.
pub fn tokenize(text: &str) -> (out: Vec<String>)
    ensures
        texts(out@) == tokens_in(search_cut(text@)),
{
    let mut one: Vec<String> = Vec::new();
    one.push(text.to_owned());
    let mut list: Vec<Vec<String>> = Vec::new();
    list.push(one);
    let cuts = cut_for_search(&list);
    assert(cuts@[0]@.len() == list@[0]@.len());
    assert(texts(cuts@[0]@[0]@) == search_cut(list@[0]@[0]@));
    tokens_of_pieces(&cuts[0][0])
}

} // verus!
