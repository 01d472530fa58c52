//! What keeping the note short promises: what is shown of it, when it is tidied, which sections
//! go, and what a request for a replacement does.

use crate::memory_md::{cut_remark, cut_to_fit, entry_key, filled_lines, fits, is_dated, line_with_key, merge_step,
    oldest_dated, pending, replacement, shown_note, tidy_rule, without_dated, without_oldest, Merge};
use crate::text::{is_blank, lines, trim};
use vstd::prelude::*;
use vstd::string::*;

verus! {

/// Of a note that is too long its end is shown, two thousand characters of it, behind a remark; a
/// shorter one is shown as it is.
pub proof fn end_of_the_note_is_shown(note: Seq<char>)
    ensures
        note.len() <= 2000 ==> shown_note(Some(note)) == Some(note),
        note.len() > 2000 ==> (shown_note(Some(note)) matches Some(s) && s.len() > 2000 && s.skip(
            s.len() - 2000,
        ) == note.skip(note.len() - 2000)),
        shown_note(None) is None,
{
    reveal_strlit("（较早内容已截断）\n");
    assert("（较早内容已截断）\n"@.len() == 10);
    if note.len() > 2000 {
        let s = shown_note(Some(note))->0;
        assert(s.skip(s.len() - 2000) =~= note.skip(note.len() - 2000));
    }
}

proof fn lemma_filled(ls: Seq<Seq<char>>)
    ensures
        filled_lines(ls) == ls.filter(|l: Seq<char>| !is_blank(l)).len(),
    decreases ls.len(),
{
    reveal(Seq::filter);
    if ls.len() > 0 {
        lemma_filled(ls.drop_last());
    }
}

/// A note of more than seventeen hundred characters is compacted; a shorter one is tidied from
/// twelve waiting lines on, and left alone before.
pub proof fn note_is_tidied_when_it_grows(text: Seq<char>)
    ensures
        text.len() > 1700 <==> tidy_rule(text) is FullCompaction,
        text.len() <= 1700 ==> (tidy_rule(text) is Incremental <==> lines(pending(text)).filter(
            |l: Seq<char>| !is_blank(l),
        ).len() >= 12),
{
    lemma_filled(lines(pending(text)));
}

proof fn lemma_oldest(secs: Seq<Seq<char>>)
    ensures
        match oldest_dated(secs) {
            Some(i) => 0 <= i < secs.len() && is_dated(secs[i]) && forall|k: int|
                0 <= k < i ==> !is_dated(#[trigger] secs[k]),
            None => forall|k: int| 0 <= k < secs.len() ==> !is_dated(#[trigger] secs[k]),
        },
    decreases secs.len(),
{
    if secs.len() > 0 && !is_dated(secs[0]) {
        let t = secs.skip(1);
        lemma_oldest(t);
        assert forall|k: int| 1 <= k < secs.len() implies #[trigger] secs[k] == t[k - 1] by {}
    }
}

proof fn lemma_filter_remove(s: Seq<Seq<char>>, test: spec_fn(Seq<char>) -> bool, i: int)
    requires
        0 <= i < s.len(),
    ensures
        !test(s[i]) ==> s.remove(i).filter(test) == s.filter(test),
        test(s[i]) && (forall|k: int| 0 <= k < i ==> !test(#[trigger] s[k])) ==> s.filter(test).len() > 0
            && s.remove(i).filter(test) == s.filter(test).skip(1),
    decreases s.len(),
{
    reveal(Seq::filter);
    let d = s.drop_last();
    if i == s.len() - 1 {
        assert(s.remove(i) =~= d);
        if test(s[i]) && (forall|k: int| 0 <= k < i ==> !test(#[trigger] s[k])) {
            lemma_none(d, test);
            assert(s.filter(test).skip(1) =~= Seq::<Seq<char>>::empty());
        }
    } else {
        lemma_filter_remove(d, test, i);
        assert(s.remove(i).drop_last() =~= d.remove(i));
        assert(s.remove(i).last() == s.last());
        if test(s[i]) && (forall|k: int| 0 <= k < i ==> !test(#[trigger] s[k])) {
            assert forall|k: int| 0 <= k < i implies !test(#[trigger] d[k]) by {
                assert(d[k] == s[k]);
            }
            assert(s.remove(i).filter(test) =~= s.filter(test).skip(1));
        }
    }
}

proof fn lemma_none(s: Seq<Seq<char>>, test: spec_fn(Seq<char>) -> bool)
    requires
        forall|k: int| 0 <= k < s.len() ==> !test(#[trigger] s[k]),
    ensures
        s.filter(test) == Seq::<Seq<char>>::empty(),
    decreases s.len(),
{
    reveal(Seq::filter);
    if s.len() > 0 {
        let d = s.drop_last();
        assert forall|k: int| 0 <= k < d.len() implies !test(#[trigger] d[k]) by {
            assert(d[k] == s[k]);
        }
        lemma_none(d, test);
        assert(!test(s[s.len() - 1]));
    }
}

/// While dated sections go, they go from the oldest on, and no section by topic goes.
pub proof fn oldest_dated_sections_go_first(h: nat, secs: Seq<Seq<char>>) -> (n: int)
    ensures
        0 <= n <= secs.filter(|c: Seq<char>| is_dated(c)).len(),
        without_dated(h, secs).filter(|c: Seq<char>| is_dated(c)) == secs.filter(|c: Seq<char>| is_dated(c)).skip(
            n,
        ),
        without_dated(h, secs).filter(|c: Seq<char>| !is_dated(c)) == secs.filter(|c: Seq<char>| !is_dated(c)),
        fits(h, secs) ==> n == 0,
    decreases secs.len(),
{
    let test = |c: Seq<char>| is_dated(c);
    let other = |c: Seq<char>| !is_dated(c);
    lemma_oldest(secs);
    assert(secs.filter(test).skip(0) =~= secs.filter(test));
    if fits(h, secs) || secs.len() <= 1 {
        0
    } else {
        match oldest_dated(secs) {
            Some(i) => {
                let rest = secs.remove(i);
                let n = oldest_dated_sections_go_first(h, rest);
                assert forall|k: int| 0 <= k < i implies !test(#[trigger] secs[k]) by {}
                lemma_filter_remove(secs, test, i);
                lemma_filter_remove(secs, other, i);
                assert(secs.filter(test).skip(1).skip(n) =~= secs.filter(test).skip(n + 1));
                n + 1
            },
            None => 0,
        }
    }
}

/// When no dated section is left, the sections go from the first on until the rest fits, and one
/// always stays.
pub proof fn first_sections_go_last(h: nat, secs: Seq<Seq<char>>) -> (n: int)
    ensures
        0 <= n <= secs.len(),
        without_oldest(h, secs) == secs.skip(n),
        secs.len() > 0 ==> without_oldest(h, secs).len() >= 1,
        fits(h, without_oldest(h, secs)) || without_oldest(h, secs).len() <= 1,
        n > 0 ==> !fits(h, secs.skip(n - 1)),
    decreases secs.len(),
{
    if fits(h, secs) || secs.len() <= 1 {
        assert(secs.skip(0) =~= secs);
        0
    } else {
        let n = first_sections_go_last(h, secs.skip(1));
        assert(secs.skip(1).skip(n) =~= secs.skip(n + 1));
        if n > 0 {
            assert(secs.skip(1).skip(n - 1) =~= secs.skip(n));
        } else {
            assert(secs.skip(0) =~= secs);
        }
        n + 1
    }
}

/// What is cut to fit keeps the end of the text.
pub proof fn cutting_keeps_the_end(head: Seq<char>, s: Seq<char>)
    requires
        s.len() > 2000,
    ensures
        ({
            let r = cut_to_fit(head, s);
            let front = (if head.len() + cut_remark().len() <= 2000 {
                head
            } else {
                Seq::<char>::empty()
            }) + cut_remark();
            &&& r.len() == 2000
            &&& r.take(front.len() as int) == front
            &&& r.skip(front.len() as int) == s.skip(s.len() - (2000 - front.len()))
        }),
{
    reveal_strlit("\n## （更早内容因超长被截断）\n");
    assert(cut_remark().len() <= 2000);
    let r = cut_to_fit(head, s);
    let front = (if head.len() + cut_remark().len() <= 2000 {
        head
    } else {
        Seq::<char>::empty()
    }) + cut_remark();
    assert(front.len() <= 2000);
    assert(r.take(front.len() as int) =~= front);
    assert(r.skip(front.len() as int) =~= s.skip(s.len() - (2000 - front.len())));
}

proof fn lemma_line_with_key(ls: Seq<Seq<char>>, key: Seq<char>, i: int)
    requires
        0 <= i < ls.len(),
        entry_key(ls[i]) == key,
        forall|k: int| 0 <= k < i ==> entry_key(#[trigger] ls[k]) != key,
    ensures
        line_with_key(ls, key) == Some(i),
    decreases ls.len(),
{
    if i > 0 {
        assert(entry_key(ls[0]) != key);
        let t = ls.skip(1);
        assert forall|k: int| 0 <= k < i - 1 implies entry_key(#[trigger] t[k]) != key by {
            assert(t[k] == ls[k + 1]);
        }
        lemma_line_with_key(t, key, i - 1);
    }
}

/// A request for a replacement puts the new entry in the place of the first line that says the
/// old one, and leaves every other line as it is; nothing is added.
pub proof fn replacement_rewrites_its_line(
    m: Merge,
    raw: Seq<char>,
    before: Seq<char>,
    after: Seq<char>,
    i: int,
)
    requires
        trim(raw).len() > 0,
        trim(raw)[0] != '#',
        replacement(trim(raw)) == Some((before, after)),
        entry_key(before).len() > 0,
        0 <= i < m.lines.len(),
        entry_key(m.lines[i]) == entry_key(before),
        forall|k: int| 0 <= k < i ==> entry_key(#[trigger] m.lines[k]) != entry_key(before),
    ensures
        ({
            let r = merge_step(m, raw);
            &&& r.lines.len() == m.lines.len()
            &&& r.lines[i] == "- "@ + trim(after)
            &&& forall|k: int| 0 <= k < m.lines.len() && k != i ==> #[trigger] r.lines[k] == m.lines[k]
            &&& r.additions == m.additions
            &&& r.replaced
        }),
{
    lemma_line_with_key(m.lines, entry_key(before), i);
}

/// A request for a replacement names the old entry before the arrow and the new one behind it,
/// and neither is empty.
pub proof fn replacement_goes_from_old_to_new(line: Seq<char>)
    ensures
        replacement(line) matches Some(p) ==> p.0.len() > 0 && p.1.len() > 0 && exists|rest: Seq<char>, i: int|
            0 <= i && i + 2 <= rest.len() && #[trigger] rest.subrange(i, i + 2) == "=>"@ && p.0 == trim(
                rest.take(i),
            ) && p.1 == trim(rest.skip(i + 2)) && (rest == trim(line.skip(8)) || rest == trim(line.skip(7))),
{
    if let Some((before, after)) = replacement(line) {
        let rest = crate::memory_md::replace_rest(line)->0;
        reveal_strlit("=>");
        assert("=>"@.len() == 2);
        crate::text::lemma_find(rest, "=>"@);
        let i = crate::text::find(rest, "=>"@)->0;
        assert(rest.subrange(i, i + 2) == "=>"@);
    }
}

} // verus!
