//! What reading texts promises: words, keywords, what a text adds to another, how well a memory
//! fits a query, and what is said of the services around.

use crate::consolidation::{count_held, han_words, is_han, is_stop, keywords_in, long_words, says_no_more,
    telling};
use crate::ollama_service::{health_checked, installed, names_model, refreshed, ChildState, ServiceView};
use crate::seed::glued;
use crate::text::{has_sub, is_white, lemma_split_len, lowercase, non_empty, occurs_at, split_where, trim,
    words};
use crate::tokens::distinct_words_hold_all;
use crate::types::{count_mentions, fit_of, ItemView};
use vstd::prelude::*;
use vstd::string::*;

verus! {

// ---------------------------------------------------------------------------
// Words
// ---------------------------------------------------------------------------

proof fn lemma_pieces_glued(s: Seq<char>, sep: spec_fn(char) -> bool)
    ensures
        glued(split_where(s, sep)) == s.filter(|c: char| !sep(c)),
        forall|i: int, k: int|
            0 <= i < split_where(s, sep).len() && 0 <= k < split_where(s, sep)[i].len() ==> !sep(
                #[trigger] split_where(s, sep)[i][k],
            ),
    decreases s.len(),
{
    reveal(Seq::filter);
    let all = split_where(s, sep);
    if s.len() == 0 {
        assert(all[0] =~= Seq::<char>::empty());
        reveal_with_fuel(glued, 2);
        assert(all.drop_last() =~= Seq::<Seq<char>>::empty());
        assert(glued(all) =~= Seq::<char>::empty());
        assert(s.filter(|c: char| !sep(c)) =~= Seq::<char>::empty());
    } else {
        let p = split_where(s.drop_last(), sep);
        lemma_split_len(s.drop_last(), sep);
        lemma_pieces_glued(s.drop_last(), sep);
        if sep(s.last()) {
            assert(all.drop_last() =~= p);
            assert(glued(all) =~= glued(p));
        } else {
            assert(all.drop_last() =~= p.drop_last());
            assert(all.last() == p.last().push(s.last()));
            assert(glued(all) =~= glued(p).push(s.last()));
        }
        assert forall|i: int, k: int| 0 <= i < all.len() && 0 <= k < all[i].len() implies !sep(
            #[trigger] all[i][k],
        ) by {
            if i < p.len() - 1 || (sep(s.last()) && i < p.len()) {
                assert(all[i] == p[i]);
                assert(!sep(p[i][k]));
            } else if !sep(s.last()) {
                let last = p[p.len() - 1];
                if k < last.len() {
                    assert(all[i][k] == last[k]);
                    assert(!sep(p[p.len() - 1][k]));
                }
            }
        }
    }
}

proof fn lemma_non_empty(parts: Seq<Seq<char>>)
    ensures
        glued(non_empty(parts)) == glued(parts),
        forall|i: int|
            0 <= i < non_empty(parts).len() ==> (#[trigger] non_empty(parts)[i]).len() > 0 && parts.contains(
                non_empty(parts)[i],
            ),
    decreases parts.len(),
{
    if parts.len() > 0 {
        let d = parts.drop_last();
        lemma_non_empty(d);
        let all = non_empty(parts);
        if parts.last().len() == 0 {
            assert(glued(d) + parts.last() =~= glued(d));
        } else {
            assert(all.drop_last() =~= non_empty(d));
        }
        assert forall|i: int| 0 <= i < all.len() implies (#[trigger] all[i]).len() > 0 && parts.contains(all[i]) by {
            if i < non_empty(d).len() {
                assert(d.contains(non_empty(d)[i]));
                let k = d.index_of(non_empty(d)[i]);
                assert(parts[k] == all[i]);
            } else {
                assert(parts[parts.len() - 1] == all[i]);
            }
        }
    }
}

/// The words of a text, one after the other, are the text without its white space; none is empty,
/// and none holds white space.
pub proof fn words_are_the_text_without_white_space(s: Seq<char>)
    ensures
        glued(words(s)) == s.filter(|c: char| !is_white(c)),
        forall|i: int| 0 <= i < words(s).len() ==> (#[trigger] words(s)[i]).len() > 0,
        forall|i: int, k: int|
            0 <= i < words(s).len() && 0 <= k < words(s)[i].len() ==> !is_white(#[trigger] words(s)[i][k]),
{
    let sep = |c: char| is_white(c);
    lemma_pieces_glued(s, sep);
    lemma_non_empty(split_where(s, sep));
    lemma_same_filter(s, |c: char| !sep(c), |c: char| !is_white(c));
    assert forall|i: int, k: int| 0 <= i < words(s).len() && 0 <= k < words(s)[i].len() implies !is_white(
        #[trigger] words(s)[i][k],
    ) by {
        let p = split_where(s, sep);
        assert(p.contains(words(s)[i]));
        let x = p.index_of(words(s)[i]);
        assert(!sep(p[x][k]));
    }
}

proof fn lemma_same_filter(s: Seq<char>, a: spec_fn(char) -> bool, b: spec_fn(char) -> bool)
    requires
        forall|c: char| #[trigger] a(c) == b(c),
    ensures
        s.filter(a) == s.filter(b),
    decreases s.len(),
{
    reveal(Seq::filter);
    if s.len() > 0 {
        lemma_same_filter(s.drop_last(), a, b);
    }
}

proof fn lemma_long_words(pieces: Seq<Seq<char>>, x: Seq<char>)
    ensures
        long_words(pieces).contains(x) <==> x.len() >= 2 && exists|i: int|
            0 <= i < pieces.len() && lowercase(#[trigger] pieces[i]) == x,
    decreases pieces.len(),
{
    if pieces.len() > 0 {
        let d = pieces.drop_last();
        lemma_long_words(d, x);
        let rest = long_words(d);
        let all = long_words(pieces);
        let w = lowercase(pieces.last());
        if rest.contains(x) {
            assert(all[rest.index_of(x)] == x);
            let i = choose|i: int| 0 <= i < d.len() && lowercase(#[trigger] d[i]) == x;
            assert(lowercase(pieces[i]) == x);
        }
        if all.contains(x) && !rest.contains(x) {
            let k = all.index_of(x);
            if k < rest.len() {
                assert(rest[k] == x);
            }
            assert(lowercase(pieces[pieces.len() - 1]) == x);
        }
        if x.len() >= 2 && exists|i: int| 0 <= i < pieces.len() && lowercase(#[trigger] pieces[i]) == x {
            let i = choose|i: int| 0 <= i < pieces.len() && lowercase(#[trigger] pieces[i]) == x;
            if i < d.len() {
                assert(lowercase(d[i]) == x);
            } else {
                assert(all[rest.len() as int] == x);
            }
        }
    }
}

proof fn lemma_han_words(s: Seq<char>, x: Seq<char>)
    ensures
        han_words(s).contains(x) <==> x.len() == 1 && is_han(x[0]) && s.contains(x[0]),
    decreases s.len(),
{
    if s.len() > 0 {
        let d = s.drop_last();
        lemma_han_words(d, x);
        let rest = han_words(d);
        let all = han_words(s);
        if rest.contains(x) {
            assert(all[rest.index_of(x)] == x);
            assert(s[d.index_of(x[0])] == x[0]);
        }
        if all.contains(x) && !rest.contains(x) {
            let k = all.index_of(x);
            if k < rest.len() {
                assert(rest[k] == x);
            }
            assert(x[0] == s.last());
            assert(s[s.len() - 1] == x[0]);
        }
        if x.len() == 1 && is_han(x[0]) && s.contains(x[0]) {
            let i = s.index_of(x[0]);
            if i < d.len() {
                assert(d[i] == x[0]);
            } else {
                assert(x =~= seq![s.last()]);
                assert(all[rest.len() as int] == x);
            }
        }
    }
}

/// The keywords of a text are its words of two characters or more in lower case and its Chinese
/// characters one by one, each once and nothing else.
pub proof fn keywords_are_words_and_characters(s: Seq<char>, x: Seq<char>)
    ensures
        keywords_in(s).contains(x) <==> (x.len() >= 2 && exists|i: int|
            0 <= i < split_where(s, crate::consolidation::between_words()).len() && lowercase(
                #[trigger] split_where(s, crate::consolidation::between_words())[i],
            ) == x) || (x.len() == 1 && is_han(x[0]) && s.contains(x[0])),
        keywords_in(s).no_duplicates(),
{
    let a = long_words(split_where(s, crate::consolidation::between_words()));
    let b = han_words(s);
    lemma_long_words(split_where(s, crate::consolidation::between_words()), x);
    lemma_han_words(s, x);
    distinct_words_hold_all(a + b);
    if a.contains(x) {
        assert((a + b)[a.index_of(x)] == x);
    }
    if b.contains(x) {
        assert((a + b)[a.len() + b.index_of(x)] == x);
    }
}

// ---------------------------------------------------------------------------
// What a text adds
// ---------------------------------------------------------------------------

proof fn lemma_piece_stands(s: Seq<char>, sep: spec_fn(char) -> bool, i: int) -> (at: int)
    requires
        0 <= i < split_where(s, sep).len(),
    ensures
        occurs_at(s, split_where(s, sep)[i], at),
        i == split_where(s, sep).len() - 1 ==> at + split_where(s, sep)[i].len() == s.len(),
    decreases s.len(),
{
    if s.len() == 0 {
        assert(s.subrange(0, 0) =~= Seq::<char>::empty());
        0
    } else {
        let d = s.drop_last();
        let p = split_where(d, sep);
        lemma_split_len(d, sep);
        let all = split_where(s, sep);
        if sep(s.last()) && i == p.len() {
            assert(s.subrange(s.len() as int, s.len() as int) =~= Seq::<char>::empty());
            s.len() as int
        } else if i < p.len() - 1 || sep(s.last()) {
            let at = lemma_piece_stands(d, sep, i);
            assert(all[i] == p[i]);
            assert(s.subrange(at, at + p[i].len()) =~= d.subrange(at, at + p[i].len()));
            at
        } else {
            let at = lemma_piece_stands(d, sep, i);
            let n = all[i].len() as int;
            assert(all[i] == p[i].push(s.last()));
            assert(s.subrange(at, at + n) =~= all[i]) by {
                assert(d.subrange(at, at + p[i].len()) == p[i]);
                assert forall|k: int| 0 <= k < n implies s.subrange(at, at + n)[k] == all[i][k] by {
                    if k < p[i].len() {
                        assert(d.subrange(at, at + p[i].len())[k] == d[at + k]);
                    }
                }
            }
            at
        }
    }
}

proof fn lemma_trim_stands(s: Seq<char>, t: Seq<char>)
    requires
        has_sub(s, t),
    ensures
        has_sub(s, trim(t)),
{
    let at = choose|at: int| occurs_at(s, t, at);
    crate::text::lemma_trim_start(t);
    let a = crate::text::trim_start(t);
    crate::text::lemma_trim_end(a);
    let b = trim(t);
    let k = t.len() - a.len();
    assert(a == t.skip(k));
    assert(b == a.take(b.len() as int));
    assert(s.subrange(at, at + t.len()) == t);
    assert(s.subrange(at + k, at + k + b.len()) =~= b) by {
        assert forall|j: int| 0 <= j < b.len() implies s.subrange(at + k, at + k + b.len())[j] == b[j] by {
            assert(b[j] == a[j]);
            assert(a[j] == t[j + k]);
            assert(s.subrange(at, at + t.len())[j + k] == s[at + k + j]);
        }
    }
    assert(occurs_at(s, b, at + k));
}

proof fn lemma_telling(pieces: Seq<Seq<char>>, i: int) -> (k: int)
    requires
        0 <= i < telling(pieces).len(),
    ensures
        0 <= k < pieces.len(),
        telling(pieces)[i] == trim(pieces[k]),
        telling(pieces)[i].len() >= 6,
    decreases pieces.len(),
{
    let rest = telling(pieces.drop_last());
    if i < rest.len() {
        lemma_telling(pieces.drop_last(), i)
    } else {
        pieces.len() - 1
    }
}

proof fn lemma_count_held(text: Seq<char>, list: Seq<Seq<char>>)
    ensures
        count_held(text, list) == list.filter(|t: Seq<char>| has_sub(text, t)).len(),
        count_held(text, list) <= list.len(),
        (forall|i: int| 0 <= i < list.len() ==> has_sub(text, #[trigger] list[i])) ==> count_held(text, list)
            == list.len(),
        (forall|i: int| 0 <= i < list.len() ==> !has_sub(text, #[trigger] list[i])) ==> count_held(text, list)
            == 0,
    decreases list.len(),
{
    reveal(Seq::filter);
    if list.len() > 0 {
        let d = list.drop_last();
        lemma_count_held(text, d);
        assert(list.last() == list[list.len() - 1]);
        assert forall|i: int| 0 <= i < d.len() implies #[trigger] d[i] == list[i] by {}
    }
}

/// A text that stands in another word for word adds nothing to it; one of whose sentences none
/// stands there adds something.
pub proof fn repeated_text_adds_nothing(there: Seq<char>, new: Seq<char>)
    ensures
        ({
            let list = telling(split_where(new, is_stop()));
            &&& list.len() > 0 && has_sub(there, new) ==> says_no_more(there, new)
            &&& list.len() > 0 && (forall|i: int| 0 <= i < list.len() ==> !has_sub(there, #[trigger] list[i]))
                ==> !says_no_more(there, new)
            &&& list.len() > 0 ==> (says_no_more(there, new) <==> 10 * list.filter(
                |t: Seq<char>| has_sub(there, t),
            ).len() > 7 * list.len())
        }),
{
    let pieces = split_where(new, is_stop());
    let list = telling(pieces);
    lemma_count_held(there, list);
    if list.len() > 0 && has_sub(there, new) {
        assert forall|i: int| 0 <= i < list.len() implies has_sub(there, #[trigger] list[i]) by {
            let k = lemma_telling(pieces, i);
            let at = lemma_piece_stands(new, is_stop(), k);
            assert(has_sub(new, pieces[k]));
            lemma_trim_stands(new, pieces[k]);
            lemma_stands_in(there, new, trim(pieces[k]));
        }
    }
}

proof fn lemma_stands_in(a: Seq<char>, b: Seq<char>, c: Seq<char>)
    requires
        has_sub(a, b),
        has_sub(b, c),
    ensures
        has_sub(a, c),
{
    let i = choose|i: int| occurs_at(a, b, i);
    let j = choose|j: int| occurs_at(b, c, j);
    assert(a.subrange(i, i + b.len()) == b);
    assert(a.subrange(i + j, i + j + c.len()) =~= c) by {
        assert(b.subrange(j, j + c.len()) == c);
        assert forall|k: int| 0 <= k < c.len() implies a.subrange(i + j, i + j + c.len())[k] == c[k] by {
            assert(a.subrange(i, i + b.len())[j + k] == a[i + j + k]);
            assert(b.subrange(j, j + c.len())[k] == b[j + k]);
        }
    }
    assert(occurs_at(a, c, i + j));
}

// ---------------------------------------------------------------------------
// How well a memory fits
// ---------------------------------------------------------------------------

proof fn lemma_mentions(tags: Seq<Seq<char>>, query: Seq<char>)
    ensures
        count_mentions(tags, query) == tags.filter(
            |t: Seq<char>| has_sub(lowercase(t), lowercase(query)),
        ).len(),
    decreases tags.len(),
{
    reveal(Seq::filter);
    if tags.len() > 0 {
        lemma_mentions(tags.drop_last(), query);
    }
}

/// A memory fits a query by its importance, by one where its content holds the query and by a
/// half for each tag that does; a recent memory counts in full, and one that is not at all
/// recent by seven tenths.
pub proof fn fit_grows_with_mentions_and_recency(m: ItemView, query: Seq<char>, recency: i64, more: i64)
    requires
        0 <= recency <= more <= 1_000_000,
        0 <= m.importance,
    ensures
        ({
            let base = m.importance + (if has_sub(lowercase(m.content), lowercase(query)) {
                1_000_000int
            } else {
                0
            }) + 500_000 * m.tags.filter(|t: Seq<char>| has_sub(lowercase(t), lowercase(query))).len();
            &&& fit_of(m, query, 1_000_000) == base * 1_000_000_000_000
            &&& fit_of(m, query, 0) == base * 700_000_000_000
            &&& fit_of(m, query, recency) <= fit_of(m, query, more)
        }),
{
    lemma_mentions(m.tags, query);
    let n = count_mentions(m.tags, query) as int;
    let base = m.importance + (if has_sub(lowercase(m.content), lowercase(query)) {
        1_000_000int
    } else {
        0
    }) + n * 500_000;
    assert(base >= 0);
    assert(base * (700_000_000_000 + 300_000 * recency) <= base * (700_000_000_000 + 300_000 * more)) by (
        nonlinear_arith)
        requires
            base >= 0,
            recency <= more,
    ;
}

// ---------------------------------------------------------------------------
// Services around
// ---------------------------------------------------------------------------

/// A service that answers runs, whatever was thought of it; one whose program ended while it ran
/// has crashed; and one that is starting has crashed when its time is over.
pub proof fn service_is_what_it_shows(s: ServiceView, child: ChildState)
    ensures
        refreshed(s, true, child).status is Running,
        refreshed(s, false, ChildState::Exited).status is Crashed <==> s.status is Running || s.status is Starting
            || s.status is Crashed,
        s.status is Starting ==> health_checked(s, true, false).status is Running,
        s.status is Starting ==> health_checked(s, false, true).status is Crashed && health_checked(
            s,
            false,
            true,
        ).error is Some,
        s.status is Starting ==> health_checked(s, false, false) == s,
        !(s.status is Starting) ==> health_checked(s, true, true) == s && health_checked(s, false, true) == s,
{
}

/// A model is there under its name or under its name with a tag; no model is there without a
/// name.
pub proof fn model_is_found_with_or_without_tag(list: Seq<Seq<char>>, target: Seq<char>, tag: Seq<char>, i: int)
    requires
        0 <= i < list.len(),
        target.len() > 0,
    ensures
        list[i] == target ==> installed(list, target),
        list[i] == target + ":"@ + tag ==> installed(list, target),
        !installed(list, Seq::empty()),
{
    if list[i] == target + ":"@ + tag {
        let p = target + ":"@;
        assert(list[i].take(p.len() as int) =~= p);
        assert(names_model(list[i], target));
    }
}

} // verus!
