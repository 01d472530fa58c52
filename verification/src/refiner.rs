//! Narrowing many candidates down: by words first, then by a model's choice.

use crate::json::{json_item, read_item, read_single, single_field, FieldView, JsonField};
use crate::rank::{rank_items, ranked};
use crate::select::{copy_flagged, kept};
use crate::strategy::first_items;
use crate::text::{decimal_of, join, byte_len, chars_of, contains_chars, count_bytes, decimal, find, has_sub,
    join_strings, list_has, lower, lowercase, position_of, same, string_of, texts, trim, trimmed};
use crate::tokenize::{search_cut, tokenize, tokens_in};
use crate::types::{copy_items, item_views, ItemView, MemoryItem};
use vstd::prelude::*;
use vstd::slice::*;
use vstd::string::*;

verus! {

/// A hit of a word, in ten-millionths; an importance counts a tenth.
pub const WORD_HIT: i128 = 10_000_000;

/// The words that count: those of more than one byte.
pub open spec fn long_tokens(tokens: Seq<Seq<char>>) -> Seq<Seq<char>> {
    tokens.filter(|t: Seq<char>| byte_len(t) > 1)
}

/// Whether the word stands in the content or in a tag, whatever the case.
pub open spec fn word_in(m: ItemView, token: Seq<char>) -> bool {
    has_sub(lowercase(m.content), lowercase(token)) || exists|k: int|
        0 <= k < m.tags.len() && has_sub(lowercase(#[trigger] m.tags[k]), lowercase(token))
}

/// How many of the first `n` words stand in the memory.
pub open spec fn words_in(m: ItemView, tokens: Seq<Seq<char>>, n: nat) -> nat
    decreases n,
{
    if n == 0 {
        0
    } else {
        words_in(m, tokens, (n - 1) as nat) + (if word_in(m, tokens[n - 1]) {
            1nat
        } else {
            0nat
        })
    }
}

/// The words in each memory, and a tenth of its importance.
pub open spec fn prefilter_keys(items: Seq<ItemView>, tokens: Seq<Seq<char>>) -> Seq<i128> {
    items.map_values(
        |m: ItemView| (words_in(m, tokens, tokens.len()) * WORD_HIT + m.importance) as i128,
    )
}

/// The candidates that hold most of the words. All candidates where they are few
/// enough, the first where no word counts.
pub open spec fn prefiltered(items: Seq<ItemView>, tokens: Seq<Seq<char>>, top_k: int) -> Seq<ItemView> {
    let t = long_tokens(tokens);
    if items.len() <= top_k {
        items
    } else if t.len() == 0 {
        items.take(top_k)
    } else {
        ranked(items, prefilter_keys(items, t), top_k)
    }
}

fn count_words(m: &MemoryItem, tokens: &Vec<String>) -> (n: usize)
    ensures
        n == words_in(m@, texts(tokens@), tokens@.len()),
        n <= tokens@.len(),
{
    let ghost all = texts(tokens@);
    let c = lower(m.content.as_str());
    let cc = chars_of(c.as_str());
    let mut n: usize = 0;
    let mut i: usize = 0;
    while i < tokens.len()
        invariant
            i <= tokens@.len(),
            all == texts(tokens@),
            cc@ == lowercase(m@.content),
            n <= i,
            n == words_in(m@, all, i as nat),
        decreases tokens@.len() - i,
    {
        assert(all[i as int] == tokens@[i as int]@);
        let t = lower(tokens[i].as_str());
        let tc = chars_of(t.as_str());
        let mut hit = contains_chars(cc.as_slice(), tc.as_slice());
        let mut k: usize = 0;
        while k < m.tags.len() && !hit
            invariant
                k <= m.tags@.len(),
                tc@ == lowercase(all[i as int]),
                hit == (has_sub(lowercase(m@.content), tc@) || exists|j: int|
                    0 <= j < k && has_sub(lowercase(#[trigger] m@.tags[j]), tc@)),
            decreases m.tags@.len() - k,
        {
            assert(m@.tags[k as int] == m.tags@[k as int]@);
            let g = lower(m.tags[k].as_str());
            let gc = chars_of(g.as_str());
            if contains_chars(gc.as_slice(), tc.as_slice()) {
                hit = true;
            }
            k += 1;
        }
        assert(hit == word_in(m@, all[i as int]));
        if hit {
            n += 1;
        }
        i += 1;
    }
    n
}

/// The words of more than one byte.
fn keep_long(tokens: &Vec<String>) -> (out: Vec<String>)
    ensures
        texts(out@) == long_tokens(texts(tokens@)),
{
    let ghost all = texts(tokens@);
    let mut out: Vec<String> = Vec::new();
    let mut i: usize = 0;
    proof {
        reveal(Seq::filter);
    }
    assert(texts(out@) =~= long_tokens(all.take(0)));
    while i < tokens.len()
        invariant
            i <= tokens@.len(),
            all == texts(tokens@),
            texts(out@) == long_tokens(all.take(i as int)),
        decreases tokens@.len() - i,
    {
        proof {
            reveal(Seq::filter);
            assert(all.take(i + 1).drop_last() =~= all.take(i as int));
            assert(all.take(i + 1).last() == tokens@[i as int]@);
        }
        if count_bytes(tokens[i].as_str()) > 1 {
            let ghost prev = texts(out@);
            out.push(tokens[i].clone());
            assert(texts(out@) =~= prev.push(tokens@[i as int]@));
        }
        i += 1;
    }
    assert(all.take(i as int) =~= all);
    out
}

/// The candidates that hold most of the words of a query.
pub fn prefilter_by_tokens(candidates: &[MemoryItem], tokens: &Vec<String>, top_k: usize) -> (out: Vec<
    MemoryItem,
>)
    ensures
        item_views(out@) == prefiltered(item_views(candidates@), texts(tokens@), top_k as int),
{
    let ghost all = item_views(candidates@);
    if candidates.len() <= top_k {
        return copy_items(candidates);
    }
    let long = keep_long(tokens);
    if long.len() == 0 {
        assert(texts(long@).len() == 0);
        return first_items(candidates, top_k);
    }
    let ghost t = texts(long@);
    assert(t.len() == long@.len());
    let ghost want = prefilter_keys(all, t);
    let mut keys: Vec<i128> = Vec::new();
    let mut i: usize = 0;
    while i < candidates.len()
        invariant
            i <= candidates@.len(),
            all == item_views(candidates@),
            t == texts(long@),
            t.len() == long@.len(),
            want == prefilter_keys(all, t),
            keys@ == want.take(i as int),
        decreases candidates@.len() - i,
    {
        let n: usize = count_words(&candidates[i], &long);
        assert(all[i as int] == candidates@[i as int]@);
        keys.push(n as i128 * WORD_HIT + candidates[i].importance as i128);
        i += 1;
        assert(want.take(i as int) =~= want.take(i - 1).push(want[i - 1]));
    }
    assert(want.take(i as int) =~= want);
    rank_items(candidates, &keys, top_k)
}

/// The candidates that hold most of the words of a query.
pub fn keyword_prefilter(candidates: &[MemoryItem], query: &str, top_k: usize) -> (out: Vec<MemoryItem>)
    ensures
        item_views(out@) == prefiltered(
            item_views(candidates@),
            tokens_in(search_cut(query@)),
            top_k as int,
        ),
{
    let tokens = tokenize(query);
    prefilter_by_tokens(candidates, &tokens, top_k)
}

// ---------------------------------------------------------------------------
// The choice of the model
// ---------------------------------------------------------------------------

/// The identifiers in a field.
pub open spec fn chosen(f: FieldView) -> Option<Seq<Seq<char>>> {
    match f {
        FieldView::Texts(v) => Some(v),
        _ => None,
    }
}

/// The last position where a character stands.
pub open spec fn last_at(s: Seq<char>, c: char) -> Option<int>
    decreases s.len(),
{
    if s.len() == 0 {
        None
    } else if s.last() == c {
        Some(s.len() - 1)
    } else {
        last_at(s.drop_last(), c)
    }
}

/// The part of a reply from its first opening to its last closing brace.
pub open spec fn braced(s: Seq<char>) -> Option<Seq<char>> {
    match (find(s, seq!['{']), last_at(s, '}')) {
        (Some(a), Some(b)) => if a < b {
            Some(s.subrange(a, b + 1))
        } else {
            None
        },
        _ => None,
    }
}

/// The part of a reply from its first opening to its last closing brace.
pub fn braced_part(text: &str) -> (r: Option<String>)
    ensures
        crate::text::opt_text(r) == braced(text@),
{
    let cs = chars_of(text);
    let open = vec!['{'];
    assert(open@ =~= seq!['{']);
    let first = position_of(cs.as_slice(), open.as_slice());
    let mut j: usize = cs.len();
    assert(cs@.take(j as int) =~= cs@);
    while j > 0 && cs[j - 1] != '}'
        invariant
            j <= cs@.len(),
            last_at(cs@.take(j as int), '}') == last_at(cs@, '}'),
        decreases j,
    {
        assert(cs@.take(j as int).drop_last() =~= cs@.take(j - 1));
        j -= 1;
    }
    match first {
        Some(a) => {
            if j > 0 && a < j - 1 {
                let part = slice_subrange(cs.as_slice(), a, j);
                assert(part@ =~= text@.subrange(a as int, j as int));
                Some(string_of(part))
            } else {
                None
            }
        },
        None => None,
    }
}

/// The identifiers that a reply names: the reply is read as a whole, then the part
/// in braces; none where neither can be read.
pub open spec fn selection(whole: FieldView, part: Option<FieldView>) -> Seq<Seq<char>> {
    match chosen(whole) {
        Some(v) => v,
        None => match part {
            Some(p) => match chosen(p) {
                Some(v) => v,
                None => Seq::<Seq<char>>::empty(),
            },
            None => Seq::<Seq<char>>::empty(),
        },
    }
}

/// The identifiers of two readings of a reply.
pub fn select_ids(whole: JsonField, part: Option<JsonField>) -> (r: Vec<String>)
    ensures
        texts(r@) == selection(
            whole@,
            match part {
                Some(p) => Some(p@),
                None => None,
            },
        ),
{
    let none: Vec<String> = Vec::new();
    assert(texts(none@) =~= Seq::<Seq<char>>::empty());
    match whole {
        JsonField::Texts(v) => v,
        _ => match part {
            Some(JsonField::Texts(v)) => v,
            _ => none,
        },
    }
}

/// The choice in a JSON text: in the field of an object, or else the only value of a list,
/// of which those are the first two.
pub open spec fn written_choice(field: FieldView, first: FieldView, second: FieldView) -> FieldView {
    if field is NotJson && second is Missing {
        first
    } else {
        field
    }
}

/// The choice in a JSON text.
pub fn read_choice(field: JsonField, first: JsonField, second: JsonField) -> (r: JsonField)
    ensures
        r@ == written_choice(field@, first@, second@),
{
    match field {
        JsonField::NotJson => match second {
            JsonField::Missing => first,
            _ => JsonField::NotJson,
        },
        other => other,
    }
}

/// The identifiers that the reply of a model names. An object that holds the field twice
/// names none.
pub fn parse_selected_ids(text: &str) -> (r: Vec<String>)
    ensures
        texts(r@) == selection(
            written_choice(
                single_field(trim(text@), "selected"@),
                json_item(trim(text@), 0),
                json_item(trim(text@), 1),
            ),
            match braced(text@) {
                Some(p) => Some(single_field(p, "selected"@)),
                None => None,
            },
        ),
{
    let t = trimmed(text);
    let s = t.as_str();
    let whole = read_choice(read_single(s, "selected"), read_item(s, 0), read_item(s, 1));
    let part = match braced_part(text) {
        Some(p) => Some(read_single(p.as_str(), "selected")),
        None => None,
    };
    select_ids(whole, part)
}

/// The position of the first candidate with that identifier.
pub open spec fn first_with_id(items: Seq<ItemView>, id: Seq<char>) -> Option<int>
    decreases items.len(),
{
    if items.len() == 0 {
        None
    } else if items[0].id == id {
        Some(0)
    } else {
        match first_with_id(items.skip(1), id) {
            Some(i) => Some(i + 1),
            None => None,
        }
    }
}

/// The flags of the candidates that one of the first `n` identifiers names; of several with
/// one identifier, the first.
pub open spec fn chosen_flags(items: Seq<ItemView>, ids: Seq<Seq<char>>, n: nat) -> Seq<bool> {
    Seq::new(
        items.len(),
        |i: int|
            ids.take(n as int).contains(items[i].id) && first_with_id(items, items[i].id) == Some(i),
    )
}

/// The candidates that one of the first `n` identifiers names, in the order of the
/// candidates.
pub open spec fn picked(items: Seq<ItemView>, ids: Seq<Seq<char>>, n: nat) -> Seq<ItemView> {
    kept(items, chosen_flags(items, ids, n))
}

/// What the model's choice leaves: the chosen candidates, or the first where none of
/// the chosen is a candidate.
pub open spec fn refined(items: Seq<ItemView>, ids: Seq<Seq<char>>, target_n: int) -> Seq<ItemView> {
    let n = if target_n < ids.len() {
        target_n as nat
    } else {
        ids.len()
    };
    let p = picked(items, ids, n);
    if items.len() <= target_n {
        items
    } else if p.len() == 0 {
        items.take(target_n)
    } else {
        p
    }
}

proof fn lemma_first_with_id(items: Seq<ItemView>, id: Seq<char>)
    ensures
        match first_with_id(items, id) {
            Some(i) => 0 <= i < items.len() && items[i].id == id && forall|j: int|
                0 <= j < i ==> (#[trigger] items[j]).id != id,
            None => forall|j: int| 0 <= j < items.len() ==> (#[trigger] items[j]).id != id,
        },
    decreases items.len(),
{
    if items.len() > 0 && items[0].id != id {
        lemma_first_with_id(items.skip(1), id);
        match first_with_id(items.skip(1), id) {
            Some(i) => {
                assert forall|j: int| 0 <= j < i + 1 implies (#[trigger] items[j]).id != id by {
                    if j > 0 {
                        assert(items.skip(1)[j - 1] == items[j]);
                    }
                }
            },
            None => {
                assert forall|j: int| 0 <= j < items.len() implies (#[trigger] items[j]).id
                    != id by {
                    if j > 0 {
                        assert(items.skip(1)[j - 1] == items[j]);
                    }
                }
            },
        }
    }
}

/// The position of the first memory with that identifier.
pub fn find_by_id(items: &[MemoryItem], id: &str) -> (r: Option<usize>)
    ensures
        match r {
            Some(i) => first_with_id(item_views(items@), id@) == Some(i as int) && i < items@.len(),
            None => first_with_id(item_views(items@), id@) is None,
        },
{
    let ghost all = item_views(items@);
    let mut i: usize = 0;
    while i < items.len()
        invariant
            i <= items@.len(),
            all == item_views(items@),
            forall|j: int| 0 <= j < i ==> (#[trigger] all[j]).id != id@,
        decreases items@.len() - i,
    {
        assert(all[i as int] == items@[i as int]@);
        if same(items[i].id.as_str(), id) {
            proof {
                lemma_first_with_id(all, id@);
                match first_with_id(all, id@) {
                    Some(w) => {
                        if w < i {
                            assert(all[w].id != id@);
                        } else if i < w {
                            assert(all[i as int].id != id@);
                        }
                    },
                    None => assert(all[i as int].id != id@),
                }
            }
            return Some(i);
        }
        i += 1;
    }
    proof {
        lemma_first_with_id(all, id@);
    }
    None
}

/// What the model's choice leaves of the candidates.
pub fn apply_selection(candidates: &[MemoryItem], ids: &Vec<String>, target_n: usize) -> (out: Vec<
    MemoryItem,
>)
    ensures
        item_views(out@) == refined(item_views(candidates@), texts(ids@), target_n as int),
{
    let ghost all = item_views(candidates@);
    let ghost names = texts(ids@);
    if candidates.len() <= target_n {
        return copy_items(candidates);
    }
    let n: usize = if target_n < ids.len() {
        target_n
    } else {
        ids.len()
    };
    let mut first: Vec<String> = Vec::new();
    let mut k: usize = 0;
    assert(texts(first@) =~= names.take(0));
    while k < n
        invariant
            k <= n <= ids@.len(),
            names == texts(ids@),
            texts(first@) == names.take(k as int),
        decreases n - k,
    {
        let ghost prev = texts(first@);
        first.push(ids[k].clone());
        assert(texts(first@) =~= prev.push(ids@[k as int]@));
        assert(names.take(k + 1) =~= names.take(k as int).push(ids@[k as int]@));
        k += 1;
    }
    let ghost want = chosen_flags(all, names, n as nat);
    let mut flags: Vec<bool> = Vec::new();
    let mut i: usize = 0;
    while i < candidates.len()
        invariant
            i <= candidates@.len(),
            all == item_views(candidates@),
            texts(first@) == names.take(n as int),
            want == chosen_flags(all, names, n as nat),
            flags@.len() == i,
            forall|j: int| 0 <= j < i ==> #[trigger] flags@[j] == want[j],
        decreases candidates@.len() - i,
    {
        let id = candidates[i].id.as_str();
        assert(all[i as int] == candidates@[i as int]@);
        let chosen = list_has(&first, id) && match find_by_id(candidates, id) {
            Some(at) => at == i,
            None => false,
        };
        flags.push(chosen);
        i += 1;
    }
    assert(flags@ =~= want);
    let out = copy_flagged(candidates, &flags);
    if out.len() == 0 {
        assert(item_views(out@).len() == 0);
        return first_items(candidates, target_n);
    }
    assert(item_views(out@).len() > 0);
    out
}

/// A memory that the model chose is left, where it is a candidate.
pub proof fn chosen_candidates_are_left(items: Seq<ItemView>, ids: Seq<Seq<char>>, n: nat, k: int)
    requires
        n <= ids.len(),
        0 <= k < n,
        first_with_id(items, ids[k]) is Some,
    ensures
        picked(items, ids, n).contains(items[first_with_id(items, ids[k])->0]),
{
    lemma_first_with_id(items, ids[k]);
    let i = first_with_id(items, ids[k])->0;
    assert(ids.take(n as int)[k] == ids[k]);
    assert(chosen_flags(items, ids, n)[i]);
    lemma_kept_has(items, chosen_flags(items, ids, n), i);
}

proof fn lemma_kept_has(s: Seq<ItemView>, flags: Seq<bool>, i: int)
    requires
        0 <= i < s.len(),
        flags[i],
    ensures
        kept(s, flags).contains(s[i]),
    decreases s.len(),
{
    let r = kept(s, flags);
    if i == s.len() - 1 {
        assert(r[r.len() - 1] == s[i]);
    } else {
        lemma_kept_has(s.drop_last(), flags, i);
        let q = kept(s.drop_last(), flags);
        let k = q.index_of(s[i]);
        assert(s.drop_last()[i] == s[i]);
        assert(q[k] == s[i]);
        assert(r[k] == q[k]);
    }
}

// ---------------------------------------------------------------------------
// Both steps
// ---------------------------------------------------------------------------

/// What comes before the model is asked.
pub enum RefinePlan {
    /// Nothing is left to choose.
    Done(Vec<MemoryItem>),
    /// The model is to choose among these.
    Ask(Vec<MemoryItem>),
}

/// What comes before the model is asked: nothing where nothing is wanted or there
/// are few enough candidates, before or after the words were looked at.
pub fn plan_refinement(
    candidates: &[MemoryItem],
    tokens: &Vec<String>,
    prefilter_k: usize,
    target_n: usize,
) -> (r: RefinePlan)
    ensures
        ({
            let all = item_views(candidates@);
            let few = prefiltered(all, texts(tokens@), prefilter_k as int);
            match r {
                RefinePlan::Done(v) => (item_views(v@) == Seq::<ItemView>::empty() && (all.len()
                    == 0 || target_n == 0)) || (target_n > 0 && all.len() > 0 && all.len()
                    <= target_n && item_views(v@) == all) || (target_n > 0 && all.len() > target_n
                    && few.len() <= target_n && item_views(v@) == few),
                RefinePlan::Ask(v) => target_n > 0 && all.len() > target_n && few.len() > target_n
                    && item_views(v@) == few,
            }
        }),
{
    if candidates.len() == 0 || target_n == 0 {
        let none: Vec<MemoryItem> = Vec::new();
        assert(item_views(none@) =~= Seq::<ItemView>::empty());
        return RefinePlan::Done(none);
    }
    if candidates.len() <= target_n {
        return RefinePlan::Done(copy_items(candidates));
    }
    let few = prefilter_by_tokens(candidates, tokens, prefilter_k);
    assert(item_views(few@).len() == few@.len());
    if few.len() <= target_n {
        RefinePlan::Done(few)
    } else {
        RefinePlan::Ask(few)
    }
}

/// What is left, given the identifiers that the model chose; without a choice the
/// first candidates.
pub fn finish_refinement(asked: &[MemoryItem], ids: Option<Vec<String>>, target_n: usize) -> (out: Vec<
    MemoryItem,
>)
    ensures
        item_views(out@) == (match ids {
            Some(v) => refined(item_views(asked@), texts(v@), target_n as int),
            None => if target_n < asked@.len() {
                item_views(asked@).take(target_n as int)
            } else {
                item_views(asked@)
            },
        }),
{
    match ids {
        Some(v) => apply_selection(asked, &v, target_n),
        None => first_items(asked, target_n),
    }
}

/// What a model that selects memories is told it is.
pub const REFINE_SYSTEM: &'static str = "你是记忆筛选助手。从候选记忆中挑选与用户查询最相关的若干条。只输出 JSON。";

/// A candidate in the question.
pub open spec fn candidate_line(i: int, id: Seq<char>, preview: Seq<char>) -> Seq<char> {
    "["@ + decimal(i as nat) + "] id="@ + id + " | "@ + preview
}

/// The question which of the candidates fit a query; `previews` are the beginnings of their
/// contents.
pub open spec fn refine_question(
    char_id: Seq<char>,
    query: Seq<char>,
    candidates: Seq<ItemView>,
    previews: Seq<Seq<char>>,
    target_n: int,
) -> Seq<char> {
    "角色："@ + char_id + "\n用户查询："@ + query + "\n候选记忆：\n"@ + join(
        Seq::new(candidates.len(), |i: int| candidate_line(i, candidates[i].id, previews[i])),
        "\n"@,
    ) + "\n\n请挑选与查询最相关的 "@ + decimal(target_n as nat)
        + " 条，输出 JSON：{\"selected\": [\"id1\", \"id2\"]}"@
}

/// The question which of the candidates fit a query.
pub fn refine_prompt(
    char_id: &str,
    query: &str,
    candidates: &[MemoryItem],
    previews: &Vec<String>,
    target_n: usize,
) -> (r: String)
    requires
        previews@.len() == candidates@.len(),
    ensures
        r@ == refine_question(
            char_id@,
            query@,
            item_views(candidates@),
            texts(previews@),
            target_n as int,
        ),
{
    let ghost cv = item_views(candidates@);
    let ghost pv = texts(previews@);
    let ghost want = Seq::new(cv.len(), |i: int| candidate_line(i, cv[i].id, pv[i]));
    let mut lines: Vec<String> = Vec::new();
    let mut i: usize = 0;
    while i < candidates.len()
        invariant
            i <= candidates@.len(),
            previews@.len() == candidates@.len(),
            cv == item_views(candidates@),
            pv == texts(previews@),
            want == Seq::new(cv.len(), |i: int| candidate_line(i, cv[i].id, pv[i])),
            lines@.len() == i,
            forall|k: int| 0 <= k < i ==> (#[trigger] lines@[k])@ == want[k],
        decreases candidates@.len() - i,
    {
        assert(cv[i as int] == candidates@[i as int]@);
        assert(pv[i as int] == previews@[i as int]@);
        let mut line: String = "[".to_owned();
        line.append(decimal_of(i as u64).as_str());
        line.append("] id=");
        line.append(candidates[i].id.as_str());
        line.append(" | ");
        line.append(previews[i].as_str());
        lines.push(line);
        i += 1;
    }
    assert(texts(lines@) =~= want);
    let mut out: String = "角色：".to_owned();
    out.append(char_id);
    out.append("\n用户查询：");
    out.append(query);
    out.append("\n候选记忆：\n");
    out.append(join_strings(&lines, "\n").as_str());
    out.append("\n\n请挑选与查询最相关的 ");
    out.append(decimal_of(target_n as u64).as_str());
    out.append(" 条，输出 JSON：{\"selected\": [\"id1\", \"id2\"]}");
    out
}

} // verus!
