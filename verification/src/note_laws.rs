//! What holds of the long-term note as a whole: what is appended waits until it is tidied, no
//! entry turns into a dated section, merging twice is merging once, and a note that is
//! written is read back as it was.

use crate::memory_md::{appended, bare, budgeted, bulleted, bullets, chunks, collapsed, composed, consolidated,
    drop_newlines, drop_quotes, entry_key, is_date_time, is_dated, is_title, keys_of, line_with_key, marker,
    merge_keeps_every_entry, merge_knows_additions, merge_lines, merge_start, merged, pending, preamble,
    recent_at, region, replace_rest, replacement, section_end, sectioned, take_entry, unbulleted,
    with_additions, without_head, Merge, MEMORY_MD_HEADER, MEMORY_MD_MAX_CHARS, MEMORY_MD_RECENT_HEADING};
use crate::text::{begins, ends, find, first_line, is_blank, is_char, is_white, join, lemma_find, lemma_split_len,
    lemma_trim, lemma_trim_end, lemma_trim_start, lemma_trimmed, lines, occurs_at, split_on, split_str, strip_cr,
    trim, trim_end, trim_start};
use vstd::prelude::*;

verus! {

// ---------------------------------------------------------------------------
// Rows
// ---------------------------------------------------------------------------

/// A row that is not the heading of a dated section.
pub open spec fn plain_row(r: Seq<char>) -> bool {
    !(begins(r, "## "@) && is_date_time(trim(r.skip(3))))
}

/// No row of the text is the heading of a dated section.
pub open spec fn undated(s: Seq<char>) -> bool {
    forall|k: int| 0 <= k < split_on(s, '\n').len() ==> plain_row(#[trigger] split_on(s, '\n')[k])
}

/// The text holds no line feed.
spec fn one_row(s: Seq<char>) -> bool {
    !s.contains('\n')
}

spec fn all_white(s: Seq<char>) -> bool {
    forall|i: int| 0 <= i < s.len() ==> is_white(#[trigger] s[i])
}

proof fn lemma_split_push(s: Seq<char>, c: char)
    ensures
        split_on(s, '\n').len() > 0,
        c == '\n' ==> split_on(s.push(c), '\n') == split_on(s, '\n').push(Seq::<char>::empty()),
        c != '\n' ==> split_on(s.push(c), '\n') == split_on(s, '\n').drop_last().push(split_on(s, '\n').last().push(c)),
{
    lemma_split_len(s, is_char('\n'));
    assert(s.push(c).drop_last() =~= s);
}

proof fn lemma_split_row(a: Seq<char>, b: Seq<char>)
    requires
        one_row(b),
    ensures
        split_on(a + b, '\n') == split_on(a, '\n').drop_last().push(split_on(a, '\n').last() + b),
    decreases b.len(),
{
    lemma_split_len(a, is_char('\n'));
    let pa = split_on(a, '\n');
    if b.len() == 0 {
        assert(a + b =~= a);
        assert(pa.last() + b =~= pa.last());
        assert(pa.drop_last().push(pa.last()) =~= pa);
    } else {
        let d = b.drop_last();
        assert(b.last() == b[b.len() - 1]);
        assert(one_row(d)) by {
            assert forall|i: int| 0 <= i < d.len() implies d[i] != '\n' by {
                assert(b[i] != '\n');
            }
        }
        lemma_split_row(a, d);
        assert(a + b =~= (a + d).push(b.last()));
        lemma_split_push(a + d, b.last());
        assert((pa.last() + d).push(b.last()) =~= pa.last() + b);
        assert(pa.drop_last().push(pa.last() + d).drop_last() =~= pa.drop_last());
    }
}

proof fn lemma_one_row(s: Seq<char>)
    requires
        one_row(s),
    ensures
        split_on(s, '\n') == seq![s],
{
    let e = Seq::<char>::empty();
    lemma_split_row(e, s);
    assert(e + s =~= s);
    assert(split_on(e, '\n') =~= seq![e]);
    assert(split_on(e, '\n').last() + s =~= s);
    assert(split_on(s, '\n') =~= seq![s]);
}

proof fn lemma_rows_are_rows(s: Seq<char>)
    ensures
        split_on(s, '\n').len() > 0,
        forall|k: int| 0 <= k < split_on(s, '\n').len() ==> one_row(#[trigger] split_on(s, '\n')[k]),
    decreases s.len(),
{
    lemma_split_len(s, is_char('\n'));
    if s.len() > 0 {
        let p = s.drop_last();
        lemma_rows_are_rows(p);
        lemma_split_push(p, s.last());
        assert(p.push(s.last()) =~= s);
        let n = split_on(p, '\n').len();
        assert(one_row(split_on(p, '\n')[n - 1]));
        assert forall|k: int| 0 <= k < split_on(s, '\n').len() implies one_row(#[trigger] split_on(s, '\n')[k]) by {
            if k < n - 1 {
                assert(split_on(s, '\n')[k] == split_on(p, '\n')[k]);
            } else if s.last() != '\n' {
                let l = split_on(p, '\n')[n - 1];
                assert forall|i: int| 0 <= i < l.push(s.last()).len() implies l.push(s.last())[i] != '\n' by {
                    if i < l.len() {
                        assert(l.contains(l[i]));
                    }
                }
            } else if k == n - 1 {
                assert(split_on(s, '\n')[k] == split_on(p, '\n')[k]);
            }
        }
    } else {
        assert(split_on(s, '\n') =~= seq![Seq::<char>::empty()]);
    }
}

/// A line feed parts the rows before it from the rows behind it.
proof fn lemma_split_two(a: Seq<char>, b: Seq<char>)
    ensures
        split_on(a.push('\n') + b, '\n') == split_on(a, '\n') + split_on(b, '\n'),
    decreases b.len(),
{
    let pa = split_on(a, '\n');
    if b.len() == 0 {
        assert(a.push('\n') + b =~= a.push('\n'));
        lemma_split_push(a, '\n');
        assert(split_on(b, '\n') =~= seq![Seq::<char>::empty()]);
        assert(pa + seq![Seq::<char>::empty()] =~= pa.push(Seq::<char>::empty()));
    } else {
        let d = b.drop_last();
        lemma_split_two(a, d);
        assert(a.push('\n') + b =~= (a.push('\n') + d).push(b.last()));
        assert(d.push(b.last()) =~= b);
        lemma_split_push(a.push('\n') + d, b.last());
        lemma_split_push(d, b.last());
        let pd = split_on(d, '\n');
        if b.last() == '\n' {
            assert((pa + pd).push(Seq::<char>::empty()) =~= pa + pd.push(Seq::<char>::empty()));
        } else {
            assert((pa + pd).last() == pd.last());
            assert((pa + pd).drop_last() =~= pa + pd.drop_last());
            assert((pa + pd.drop_last()).push(pd.last().push(b.last())) =~= pa + pd.drop_last().push(
                pd.last().push(b.last()),
            ));
        }
    }
}

/// Text before the first line feed lengthens the first row.
proof fn lemma_split_before(a: Seq<char>, b: Seq<char>)
    requires
        one_row(a),
    ensures
        split_on(a + b, '\n') == seq![a + split_on(b, '\n')[0]] + split_on(b, '\n').skip(1),
    decreases b.len(),
{
    let pb = split_on(b, '\n');
    if b.len() == 0 {
        assert(a + b =~= a);
        lemma_one_row(a);
        assert(pb =~= seq![Seq::<char>::empty()]);
        assert(a + pb[0] =~= a);
        assert(seq![a + pb[0]] + pb.skip(1) =~= seq![a]);
    } else {
        let d = b.drop_last();
        lemma_split_before(a, d);
        let pd = split_on(d, '\n');
        assert(a + b =~= (a + d).push(b.last()));
        assert(d.push(b.last()) =~= b);
        lemma_split_push(a + d, b.last());
        lemma_split_push(d, b.last());
        let whole = seq![a + pd[0]] + pd.skip(1);
        if b.last() == '\n' {
            assert(pb[0] == pd[0]);
            assert(whole.push(Seq::<char>::empty()) =~= seq![a + pb[0]] + pb.skip(1));
        } else if pd.len() == 1 {
            assert(whole =~= seq![a + pd[0]]);
            assert((a + pd[0]).push(b.last()) =~= a + pd[0].push(b.last()));
            assert(whole.drop_last().push(whole.last().push(b.last())) =~= seq![a + pb[0]] + pb.skip(1));
        } else {
            assert(pb[0] == pd[0]);
            assert(whole.last() == pd.last());
            assert(whole.drop_last().push(whole.last().push(b.last())) =~= seq![a + pb[0]] + pb.skip(1));
        }
    }
}

/// Rows joined by line feeds are split into the same rows.
proof fn lemma_split_join(parts: Seq<Seq<char>>)
    requires
        parts.len() > 0,
        forall|k: int| 0 <= k < parts.len() ==> one_row(#[trigger] parts[k]),
    ensures
        split_on(join(parts, seq!['\n']), '\n') == parts,
    decreases parts.len(),
{
    let nl = seq!['\n'];
    if parts.len() == 1 {
        lemma_one_row(parts[0]);
        assert(parts =~= seq![parts[0]]);
    } else {
        let d = parts.drop_last();
        lemma_split_join(d);
        assert(one_row(parts[parts.len() - 1]));
        lemma_split_two(join(d, nl), parts.last());
        lemma_one_row(parts.last());
        assert(join(d, nl) + nl + parts.last() =~= join(d, nl).push('\n') + parts.last());
        assert(d + seq![parts.last()] =~= parts);
    }
}

/// White space at the end of a text leaves the rows before it as they are.
proof fn lemma_split_white(t: Seq<char>, w: Seq<char>)
    requires
        all_white(w),
    ensures
        ({
            let p = split_on(t, '\n');
            let s = split_on(t + w, '\n');
            &&& 0 < p.len() <= s.len()
            &&& forall|i: int| 0 <= i < p.len() - 1 ==> #[trigger] s[i] == p[i]
            &&& exists|x: Seq<char>| all_white(x) && s[p.len() - 1] == #[trigger] (p.last() + x)
            &&& forall|i: int| p.len() <= i < s.len() ==> all_white(#[trigger] s[i])
        }),
    decreases w.len(),
{
    let p = split_on(t, '\n');
    let s = split_on(t + w, '\n');
    lemma_split_len(t, is_char('\n'));
    if w.len() == 0 {
        assert(t + w =~= t);
        let x = Seq::<char>::empty();
        assert(p.last() + x =~= p.last());
        assert(all_white(x));
        assert(s[p.len() - 1] == p.last() + x);
    } else {
        let v = w.drop_last();
        let c = w.last();
        assert(is_white(w[w.len() - 1]));
        assert(all_white(v)) by {
            assert forall|i: int| 0 <= i < v.len() implies is_white(#[trigger] v[i]) by {
                assert(is_white(w[i]));
            }
        }
        lemma_split_white(t, v);
        let q = split_on(t + v, '\n');
        assert(t + w =~= (t + v).push(c));
        lemma_split_push(t + v, c);
        let x = choose|x: Seq<char>| all_white(x) && q[p.len() - 1] == #[trigger] (p.last() + x);
        assert forall|i: int| 0 <= i < p.len() - 1 implies #[trigger] s[i] == p[i] by {
            assert(q[i] == p[i]);
        }
        assert forall|i: int| p.len() <= i < s.len() implies all_white(#[trigger] s[i]) by {
            if i < q.len() {
                assert(all_white(q[i]));
            }
        }
        if c != '\n' && q.len() == p.len() {
            let y = x.push(c);
            assert((p.last() + x).push(c) =~= p.last() + y);
            assert(all_white(y));
            assert(s[p.len() - 1] == p.last() + y);
        } else {
            assert(s[p.len() - 1] == q[p.len() - 1]);
            assert(s[p.len() - 1] == p.last() + x);
        }
    }
}

// ---------------------------------------------------------------------------
// White space around a text
// ---------------------------------------------------------------------------

proof fn lemma_trim_end_white(a: Seq<char>, w: Seq<char>)
    requires
        all_white(w),
    ensures
        trim_end(a + w) == trim_end(a),
    decreases w.len(),
{
    if w.len() == 0 {
        assert(a + w =~= a);
    } else {
        let v = w.drop_last();
        assert(all_white(v)) by {
            assert forall|i: int| 0 <= i < v.len() implies is_white(#[trigger] v[i]) by {
                assert(is_white(w[i]));
            }
        }
        assert(is_white(w[w.len() - 1]));
        assert((a + w).drop_last() =~= a + v);
        lemma_trim_end_white(a, v);
    }
}

proof fn lemma_white_is_blank(w: Seq<char>)
    requires
        all_white(w),
    ensures
        trim_start(w) == Seq::<char>::empty(),
{
    lemma_trim_start(w);
    let t = trim_start(w);
    if t.len() > 0 {
        assert(t[0] == w[w.len() - t.len()]);
    }
    assert(t =~= Seq::<char>::empty());
}

/// White space behind a text does not change what is left of it when trimmed.
proof fn lemma_trim_white(a: Seq<char>, w: Seq<char>)
    requires
        all_white(w),
    ensures
        trim(a + w) == trim(a),
    decreases a.len(),
{
    if a.len() == 0 {
        assert(a + w =~= w);
        lemma_white_is_blank(w);
        assert(trim_start(a) =~= Seq::<char>::empty());
    } else if is_white(a[0]) {
        assert((a + w)[0] == a[0]);
        assert((a + w).skip(1) =~= a.skip(1) + w);
        lemma_trim_white(a.skip(1), w);
    } else {
        assert((a + w)[0] == a[0]);
        assert(trim_start(a + w) == a + w);
        lemma_trim_end_white(a, w);
    }
}

proof fn lemma_plain_shorter(r: Seq<char>, w: Seq<char>)
    requires
        all_white(w),
        plain_row(r + w),
    ensures
        plain_row(r),
{
    reveal_strlit("## ");
    if begins(r, "## "@) {
        assert((r + w).take(3) =~= r.take(3));
        assert((r + w).skip(3) =~= r.skip(3) + w);
        lemma_trim_white(r.skip(3), w);
    }
}

proof fn lemma_undated_trim_end(s: Seq<char>)
    requires
        undated(s),
    ensures
        undated(trim_end(s)),
{
    let t = trim_end(s);
    lemma_trim_end(s);
    let w = s.skip(t.len() as int);
    assert(t + w =~= s);
    assert(all_white(w));
    lemma_split_white(t, w);
    let p = split_on(t, '\n');
    let x = choose|x: Seq<char>| all_white(x) && split_on(s, '\n')[p.len() - 1] == #[trigger] (p.last() + x);
    assert forall|k: int| 0 <= k < p.len() implies plain_row(#[trigger] split_on(t, '\n')[k]) by {
        assert(plain_row(split_on(s, '\n')[k]));
        if k == p.len() - 1 {
            lemma_plain_shorter(p.last(), x);
        }
    }
}

// ---------------------------------------------------------------------------
// Merging
// ---------------------------------------------------------------------------

/// Rows of which none is the heading of a dated section.
spec fn plain_rows(ls: Seq<Seq<char>>) -> bool {
    forall|k: int| 0 <= k < ls.len() ==> one_row(#[trigger] ls[k]) && plain_row(ls[k])
}

spec fn single_rows(ls: Seq<Seq<char>>) -> bool {
    forall|k: int| 0 <= k < ls.len() ==> one_row(#[trigger] ls[k])
}

proof fn lemma_part_is_row(s: Seq<char>, i: int, j: int)
    requires
        one_row(s),
        0 <= i <= j <= s.len(),
    ensures
        one_row(s.subrange(i, j)),
{
    let t = s.subrange(i, j);
    assert forall|k: int| 0 <= k < t.len() implies t[k] != '\n' by {
        assert(s.contains(s[i + k]));
    }
}

proof fn lemma_row_trim(s: Seq<char>)
    requires
        one_row(s),
    ensures
        one_row(trim(s)),
{
    let a = trim_start(s);
    lemma_trim_start(s);
    lemma_trim_end(a);
    let n = s.len() - a.len();
    assert(trim(s) =~= s.subrange(n, n + trim(s).len()));
    lemma_part_is_row(s, n, n + trim(s).len());
}

proof fn lemma_row_skip(s: Seq<char>, n: int)
    requires
        one_row(s),
        0 <= n <= s.len(),
    ensures
        one_row(s.skip(n)),
{
    assert(s.skip(n) =~= s.subrange(n, s.len() as int));
    lemma_part_is_row(s, n, s.len() as int);
}

proof fn lemma_row_unbulleted(t: Seq<char>, k: int)
    requires
        one_row(t),
    ensures
        one_row(unbulleted(t, k)),
    decreases bullets().len() - k,
{
    if 0 <= k < bullets().len() {
        if begins(t, bullets()[k]) {
            lemma_row_skip(t, bullets()[k].len() as int);
            lemma_row_trim(t.skip(bullets()[k].len() as int));
        } else {
            lemma_row_unbulleted(t, k + 1);
        }
    }
}

proof fn lemma_row_bare(s: Seq<char>)
    requires
        one_row(s),
    ensures
        one_row(bare(s)),
{
    lemma_row_trim(s);
    lemma_row_unbulleted(trim(s), 0);
}

proof fn lemma_row_replacement(line: Seq<char>)
    requires
        one_row(line),
    ensures
        replacement(line) matches Some(p) ==> one_row(p.1),
{
    reveal_strlit("REPLACE:");
    reveal_strlit("UPDATE:");
    reveal_strlit("=>");
    match replace_rest(line) {
        Some(rest) => {
            if line.len() >= 8 {
                lemma_row_skip(line, 8);
                lemma_row_trim(line.skip(8));
            }
            if line.len() >= 7 {
                lemma_row_skip(line, 7);
                lemma_row_trim(line.skip(7));
            }
            lemma_find(rest, "=>"@);
            match find(rest, "=>"@) {
                Some(i) => {
                    lemma_row_skip(rest, i + 2);
                    lemma_row_trim(rest.skip(i + 2));
                },
                None => {},
            }
        },
        None => {},
    }
}

proof fn lemma_bulleted_row(a: Seq<char>)
    requires
        one_row(a),
    ensures
        one_row("- "@ + a),
        plain_row("- "@ + a),
{
    reveal_strlit("- ");
    reveal_strlit("## ");
    let r = "- "@ + a;
    assert forall|k: int| 0 <= k < r.len() implies r[k] != '\n' by {
        if k >= 2 {
            assert(a.contains(a[k - 2]));
        }
    }
    if begins(r, "## "@) {
        assert(r.take(3)[0] == '-');
        assert("## "@[0] == '#');
    }
}

proof fn lemma_line_with_key(ls: Seq<Seq<char>>, key: Seq<char>)
    ensures
        line_with_key(ls, key) matches Some(i) ==> 0 <= i < ls.len(),
    decreases ls.len(),
{
    if ls.len() > 0 {
        lemma_line_with_key(ls.skip(1), key);
    }
}

proof fn lemma_take_entry(m: Merge, raw: Seq<char>)
    requires
        single_rows(m.additions),
        one_row(raw),
    ensures
        single_rows(take_entry(m, raw).additions),
        take_entry(m, raw).lines == m.lines,
{
    lemma_row_trim(raw);
    lemma_row_bare(trim(raw));
}

proof fn lemma_merge_rows(m: Merge, raws: Seq<Seq<char>>)
    requires
        plain_rows(m.lines),
        single_rows(m.additions),
        single_rows(raws),
        m.replaced ==> m.lines.len() > 0,
    ensures
        plain_rows(merge_lines(m, raws).lines),
        single_rows(merge_lines(m, raws).additions),
        merge_lines(m, raws).lines.len() == m.lines.len(),
        merge_lines(m, raws).replaced ==> m.lines.len() > 0,
    decreases raws.len(),
{
    if raws.len() > 0 {
        let d = raws.drop_last();
        assert(single_rows(d)) by {
            assert forall|k: int| 0 <= k < d.len() implies one_row(#[trigger] d[k]) by {
                assert(one_row(raws[k]));
            }
        }
        lemma_merge_rows(m, d);
        let n = merge_lines(m, d);
        assert(one_row(raws[raws.len() - 1]));
        let line = trim(raws.last());
        lemma_row_trim(raws.last());
        lemma_take_entry(n, line);
        lemma_row_replacement(line);
        match replacement(line) {
            Some((before, after)) => {
                lemma_take_entry(n, after);
                lemma_row_trim(after);
                lemma_bulleted_row(trim(after));
                lemma_line_with_key(n.lines, entry_key(before));
            },
            None => {},
        }
    }
}

/// The lines of a text without dated headings hold none either.
proof fn lemma_lines_plain(s: Seq<char>)
    requires
        undated(s),
    ensures
        plain_rows(lines(s)),
{
    lemma_rows_are_rows(s);
    let p = split_on(s, '\n');
    let ls = lines(s);
    assert forall|k: int| 0 <= k < ls.len() implies one_row(#[trigger] ls[k]) && plain_row(ls[k]) by {
        let r = p[k];
        assert(one_row(split_on(s, '\n')[k]));
        assert(plain_row(split_on(s, '\n')[k]));
        if k < p.len() - 1 {
            assert(ls[k] == strip_cr(r));
            if r.len() > 0 && r.last() == '\r' {
                let w = seq!['\r'];
                assert(r.drop_last() + w =~= r);
                assert(all_white(w));
                lemma_plain_shorter(r.drop_last(), w);
                assert(r.drop_last() =~= r.subrange(0, r.len() - 1));
                lemma_part_is_row(r, 0, r.len() - 1);
            }
        }
    }
}

proof fn lemma_lines_single(s: Seq<char>)
    ensures
        single_rows(lines(s)),
{
    lemma_rows_are_rows(s);
    let p = split_on(s, '\n');
    let ls = lines(s);
    assert forall|k: int| 0 <= k < ls.len() implies one_row(#[trigger] ls[k]) by {
        let r = p[k];
        assert(one_row(split_on(s, '\n')[k]));
        if k < p.len() - 1 {
            assert(ls[k] == strip_cr(r));
            if r.len() > 0 && r.last() == '\r' {
                assert(r.drop_last() =~= r.subrange(0, r.len() - 1));
                lemma_part_is_row(r, 0, r.len() - 1);
            }
        }
    }
}

proof fn lemma_section_end(ls: Seq<Seq<char>>, from: int)
    requires
        0 <= from <= ls.len(),
    ensures
        from <= section_end(ls, from) <= ls.len(),
    decreases ls.len() - from,
{
    if from < ls.len() {
        lemma_section_end(ls, from + 1);
    }
}

proof fn lemma_recent_at(ls: Seq<Seq<char>>)
    ensures
        recent_at(ls) matches Some(i) ==> 0 <= i < ls.len(),
    decreases ls.len(),
{
    if ls.len() > 0 {
        lemma_recent_at(ls.skip(1));
    }
}

proof fn lemma_heading_plain()
    ensures
        one_row(MEMORY_MD_RECENT_HEADING@),
        plain_row(MEMORY_MD_RECENT_HEADING@),
        one_row(Seq::<char>::empty()),
        plain_row(Seq::<char>::empty()),
{
    reveal_strlit("## 近期补充");
    reveal_strlit("## ");
    lemma_trim(MEMORY_MD_RECENT_HEADING@.skip(3));
}

proof fn lemma_additions_plain(ls: Seq<Seq<char>>, additions: Seq<Seq<char>>)
    requires
        plain_rows(ls),
        single_rows(additions),
    ensures
        plain_rows(with_additions(ls, additions)),
        with_additions(ls, additions).len() > 0,
{
    lemma_heading_plain();
    lemma_recent_at(ls);
    let b = bulleted(additions);
    assert(plain_rows(b)) by {
        assert forall|k: int| 0 <= k < b.len() implies one_row(#[trigger] b[k]) && plain_row(b[k]) by {
            assert(one_row(additions[k]));
            lemma_bulleted_row(additions[k]);
        }
    }
    let none = Seq::<char>::empty();
    let w = with_additions(ls, additions);
    match recent_at(ls) {
        Some(i) => {
            lemma_section_end(ls, i + 1);
            let end = section_end(ls, i + 1);
            let gap = if end > 0 && is_blank(ls[end - 1]) {
                Seq::<Seq<char>>::empty()
            } else {
                seq![none]
            };
            let g = end + gap.len();
            assert forall|k: int| 0 <= k < w.len() implies one_row(#[trigger] w[k]) && plain_row(w[k]) by {
                if k < end {
                    assert(w[k] == ls[k]);
                } else if k < g {
                    assert(w[k] == none);
                } else if k < g + b.len() {
                    assert(w[k] == b[k - g]);
                } else if k == g + b.len() {
                    assert(w[k] == none);
                } else {
                    assert(w[k] == ls[k - (g + b.len() + 1) + end]);
                }
            }
        },
        None => {
            assert forall|k: int| 0 <= k < w.len() implies one_row(#[trigger] w[k]) && plain_row(w[k]) by {
                if k < ls.len() {
                    assert(w[k] == ls[k]);
                } else if k >= ls.len() + 3 {
                    assert(w[k] == b[k - ls.len() - 3]);
                }
            }
        },
    }
}

proof fn lemma_join_undated(parts: Seq<Seq<char>>)
    requires
        parts.len() > 0,
        plain_rows(parts),
    ensures
        undated(join(parts, seq!['\n'])),
{
    lemma_split_join(parts);
}

/// Merging puts no dated section into a note that has none, whatever the entries
/// say.
pub proof fn merging_adds_no_dated_section(body: Seq<char>, entries: Seq<char>)
    requires
        undated(body),
    ensures
        undated(merged(body, entries)),
{
    let nl = seq!['\n'];
    lemma_undated_trim_end(body);
    let start = merge_start(body);
    lemma_lines_plain(trim_end(body));
    lemma_lines_single(entries);
    lemma_merge_rows(start, lines(entries));
    let m = merge_lines(start, lines(entries));
    if m.additions.len() > 0 {
        lemma_additions_plain(m.lines, m.additions);
        let w = with_additions(m.lines, m.additions);
        lemma_join_undated(w);
        lemma_undated_trim_end(join(w, nl));
    } else if m.replaced {
        lemma_join_undated(m.lines);
        lemma_undated_trim_end(join(m.lines, nl));
    }
}

// ---------------------------------------------------------------------------
// Reading a note back
// ---------------------------------------------------------------------------

proof fn lemma_undated_behind(a: Seq<char>, b: Seq<char>)
    ensures
        undated(a.push('\n') + b) == (undated(a) && undated(b)),
{
    lemma_split_two(a, b);
    let pa = split_on(a, '\n');
    let pb = split_on(b, '\n');
    let p = split_on(a.push('\n') + b, '\n');
    if undated(a.push('\n') + b) {
        assert forall|k: int| 0 <= k < pa.len() implies plain_row(#[trigger] split_on(a, '\n')[k]) by {
            assert(p[k] == pa[k]);
        }
        assert forall|k: int| 0 <= k < pb.len() implies plain_row(#[trigger] split_on(b, '\n')[k]) by {
            assert(p[pa.len() + k] == pb[k]);
        }
    }
}

proof fn lemma_undated_skip(s: Seq<char>, p: int)
    requires
        undated(s),
        0 <= p < s.len(),
        s[p] == '\n',
    ensures
        undated(s.skip(p + 1)),
{
    assert(s.take(p).push('\n') + s.skip(p + 1) =~= s);
    lemma_undated_behind(s.take(p), s.skip(p + 1));
}

proof fn lemma_newline_found(s: Seq<char>)
    ensures
        find(s, seq!['\n']) matches Some(p) ==> 0 <= p < s.len() && s[p] == '\n',
{
    lemma_find(s, seq!['\n']);
    match find(s, seq!['\n']) {
        Some(p) => {
            assert(s.subrange(p, p + 1)[0] == s[p]);
        },
        None => {},
    }
}

proof fn lemma_nothing_undated()
    ensures
        undated(Seq::<char>::empty()),
{
    lemma_heading_plain();
    lemma_one_row(Seq::<char>::empty());
}

proof fn lemma_undated_newlines(s: Seq<char>)
    requires
        undated(s),
    ensures
        undated(drop_newlines(s)),
    decreases s.len(),
{
    if s.len() > 0 && s[0] == '\n' {
        lemma_undated_skip(s, 0);
        lemma_undated_newlines(s.skip(1));
    }
}

proof fn lemma_undated_quotes(s: Seq<char>)
    requires
        undated(s),
    ensures
        undated(drop_quotes(s)),
    decreases s.len(),
{
    let t = drop_newlines(s);
    lemma_undated_newlines(s);
    lemma_nothing_undated();
    if t.len() > 0 && t[0] == '>' {
        lemma_newline_found(t);
        match find(t, seq!['\n']) {
            Some(p) => {
                if 0 <= p < t.len() <= s.len() {
                    lemma_undated_skip(t, p);
                    lemma_undated_quotes(t.skip(p + 1));
                }
            },
            None => {},
        }
    }
}

/// The text in which sections are looked for has no dated heading where the file
/// has none.
proof fn lemma_undated_sectioned(content: Seq<char>)
    requires
        undated(content),
        content.len() > 0,
        !is_white(content[0]),
    ensures
        undated(sectioned(content)),
        !begins(sectioned(content), "## "@),
{
    reveal_strlit("## ");
    lemma_nothing_undated();
    let t = trim_start(content);
    assert(t == content);
    if is_title(first_line(t)) {
        lemma_newline_found(t);
        match find(t, seq!['\n']) {
            Some(p) => {
                lemma_undated_skip(t, p);
                lemma_undated_quotes(t.skip(p + 1));
            },
            None => {},
        }
    }
    let body = without_head(content);
    let e = Seq::<char>::empty();
    assert(seq!['\n'] + body =~= e.push('\n') + body);
    lemma_undated_behind(e, body);
    if begins(body, "## "@) {
        let s = seq!['\n'] + body;
        assert(s.take(3)[0] == '\n');
        assert("## "@[0] == '#');
    }
}

proof fn lemma_marker()
    ensures
        marker() == seq!['\n', '#', '#', ' '],
        "## "@ == seq!['#', '#', ' '],
        one_row("## "@),
{
    reveal_strlit("\n## ");
    reveal_strlit("## ");
    assert(marker() =~= seq!['\n', '#', '#', ' ']);
    assert("## "@ =~= seq!['#', '#', ' ']);
}

/// The first row and the first line of a text are the same but for white space.
proof fn lemma_first_row(c: Seq<char>)
    ensures
        trim(first_line(c)) == trim(split_on(c, '\n')[0]),
{
    lemma_rows_are_rows(c);
    let p = split_on(c, '\n');
    let r = p[0];
    if p.len() > 1 {
        assert(lines(c)[0] == strip_cr(r));
        if r.len() > 0 && r.last() == '\r' {
            let w = seq!['\r'];
            assert(r.drop_last() + w =~= r);
            lemma_trim_white(r.drop_last(), w);
        }
    } else if r.len() == 0 {
        assert(p.last() == r);
        assert(lines(c).len() == 0);
        assert(r =~= Seq::<char>::empty());
    } else {
        assert(lines(c)[0] == r);
    }
}

proof fn lemma_headed(c: Seq<char>)
    ensures
        plain_row(split_on("## "@ + c, '\n')[0]) == !is_dated(c),
        split_on("## "@ + c, '\n') == seq!["## "@ + split_on(c, '\n')[0]] + split_on(c, '\n').skip(1),
{
    lemma_marker();
    lemma_split_before("## "@, c);
    let r = split_on(c, '\n')[0];
    let h = "## "@ + r;
    assert(h.take(3) =~= "## "@);
    assert(h.skip(3) =~= r);
    lemma_first_row(c);
}

/// What follows the marker of a text without dated headings is no dated section.
proof fn lemma_pieces_undated(s: Seq<char>)
    requires
        undated("## "@ + s),
    ensures
        forall|k: int| 0 <= k < split_str(s, marker()).len() ==> !is_dated(#[trigger] split_str(s, marker())[k]),
    decreases s.len(),
{
    lemma_marker();
    lemma_find(s, marker());
    lemma_headed(s);
    lemma_rows_are_rows("## "@ + s);
    let all = split_str(s, marker());
    match find(s, marker()) {
        Some(i) => {
            let c = s.take(i);
            let rest = s.skip(i + 4);
            assert(s.subrange(i, i + 4) == marker());
            assert(s[i] == s.subrange(i, i + 4)[0]);
            assert(s[i + 1] == s.subrange(i, i + 4)[1]);
            assert(s[i + 2] == s.subrange(i, i + 4)[2]);
            assert(s[i + 3] == s.subrange(i, i + 4)[3]);
            let b = "## "@ + rest;
            let a = "## "@ + c;
            assert("## "@ + s =~= a.push('\n') + b);
            lemma_undated_behind(a, b);
            lemma_rows_are_rows(a);
            lemma_headed(c);
            assert(plain_row(split_on(a, '\n')[0]));
            lemma_pieces_undated(rest);
            assert(all == seq![c] + split_str(rest, marker()));
            assert forall|k: int| 0 <= k < all.len() implies !is_dated(#[trigger] all[k]) by {
                if k > 0 {
                    assert(all[k] == split_str(rest, marker())[k - 1]);
                }
            }
        },
        None => {
            assert(plain_row(split_on("## "@ + s, '\n')[0]));
            assert(all =~= seq![s]);
        },
    }
}

proof fn lemma_region_empty(cs: Seq<Seq<char>>)
    requires
        forall|k: int| 0 <= k < cs.len() ==> is_blank(#[trigger] cs[k]) || !is_dated(cs[k]),
    ensures
        region(cs, true) == Seq::<char>::empty(),
    decreases cs.len(),
{
    if cs.len() > 0 {
        let d = cs.drop_last();
        assert forall|k: int| 0 <= k < d.len() implies is_blank(#[trigger] d[k]) || !is_dated(d[k]) by {
            assert(d[k] == cs[k]);
        }
        lemma_region_empty(d);
        assert(cs.last() == cs[cs.len() - 1]);
    }
}

proof fn lemma_chunks_undated(n: Seq<char>)
    requires
        undated(n),
    ensures
        region(chunks(n), true) == Seq::<char>::empty(),
{
    lemma_marker();
    lemma_find(n, marker());
    let e = Seq::<char>::empty();
    assert(is_blank(e));
    match find(n, marker()) {
        Some(i) => {
            let s = n.skip(i);
            let rest = n.skip(i + 4);
            assert(n.subrange(i, i + 4) == marker());
            assert(n[i] == n.subrange(i, i + 4)[0]);
            assert(n[i + 1] == n.subrange(i, i + 4)[1]);
            assert(n[i + 2] == n.subrange(i, i + 4)[2]);
            assert(n[i + 3] == n.subrange(i, i + 4)[3]);
            lemma_undated_skip(n, i);
            assert(n.skip(i + 1) =~= "## "@ + rest);
            lemma_pieces_undated(rest);
            assert(s.take(4) =~= marker());
            assert(find(s, marker()) == Some(0int));
            assert(s.take(0) =~= e);
            assert(s.skip(4) =~= rest);
            let cs = split_str(s, marker());
            assert(cs == seq![e] + split_str(rest, marker()));
            assert forall|k: int| 0 <= k < cs.len() implies is_blank(#[trigger] cs[k]) || !is_dated(cs[k]) by {
                if k > 0 {
                    assert(cs[k] == split_str(rest, marker())[k - 1]);
                }
            }
            lemma_region_empty(cs);
        },
        None => {
            lemma_find(e, marker());
            let cs = split_str(e, marker());
            assert(cs =~= seq![e]);
            lemma_region_empty(cs);
        },
    }
}

proof fn lemma_last_row(s: Seq<char>)
    ensures
        ({
            let p = split_on(s, '\n');
            let l = p.last();
            &&& p.len() > 0
            &&& l.len() <= s.len()
            &&& s.skip(s.len() - l.len()) == l
            &&& p.len() > 1 ==> l.len() < s.len() && s[s.len() - l.len() - 1] == '\n'
        }),
    decreases s.len(),
{
    if s.len() == 0 {
        assert(split_on(s, '\n') =~= seq![Seq::<char>::empty()]);
        assert(s.skip(0) =~= Seq::<char>::empty());
    } else {
        let d = s.drop_last();
        lemma_last_row(d);
        assert(d.push(s.last()) =~= s);
        lemma_split_push(d, s.last());
        let l = split_on(s, '\n').last();
        assert(s.skip(s.len() - l.len()) =~= l);
    }
}

/// A text without the marker has no heading of a section below its first row.
proof fn lemma_unmarked(s: Seq<char>)
    requires
        forall|j: int| !#[trigger] occurs_at(s, marker(), j),
    ensures
        forall|k: int| 1 <= k < split_on(s, '\n').len() ==> !begins(#[trigger] split_on(s, '\n')[k], "## "@),
    decreases s.len(),
{
    lemma_marker();
    if s.len() == 0 {
        assert(split_on(s, '\n') =~= seq![Seq::<char>::empty()]);
    } else {
        let d = s.drop_last();
        assert forall|j: int| !#[trigger] occurs_at(d, marker(), j) by {
            if occurs_at(d, marker(), j) {
                assert(s.subrange(j, j + 4) =~= d.subrange(j, j + 4));
                assert(occurs_at(s, marker(), j));
            }
        }
        lemma_unmarked(d);
        lemma_last_row(s);
        assert(d.push(s.last()) =~= s);
        lemma_split_push(d, s.last());
        let p = split_on(s, '\n');
        assert forall|k: int| 1 <= k < p.len() implies !begins(#[trigger] split_on(s, '\n')[k], "## "@) by {
            let l = p[k];
            if k == p.len() - 1 {
                if begins(l, "## "@) {
                    let j = s.len() - l.len() - 1;
                    assert(l == s.skip(j + 1));
                    assert(l[0] == l.take(3)[0] && l[1] == l.take(3)[1] && l[2] == l.take(3)[2]);
                    assert(s.subrange(j, j + 4) =~= marker());
                    assert(occurs_at(s, marker(), j));
                }
            } else {
                assert(p[k] == split_on(d, '\n')[k]);
            }
        }
    }
}

proof fn lemma_header_undated()
    ensures
        undated(MEMORY_MD_HEADER@),
        MEMORY_MD_HEADER@.len() > 0,
        !is_white(MEMORY_MD_HEADER@[0]),
{
    let h = MEMORY_MD_HEADER@;
    reveal_strlit("# 长期记忆笔记\n\n> 本文件随对话自动沉淀（只记相处约定、承诺、教训和梗），睡眠期自动整理合并。\n> 每次对话全量注入上下文，是与主人相处的长期约定。\n");
    lemma_marker();
    assert forall|i: int| 1 <= i < h.len() implies #[trigger] h[i] != '#' by {}
    assert forall|j: int| !#[trigger] occurs_at(h, marker(), j) by {
        if occurs_at(h, marker(), j) {
            assert(h.subrange(j, j + 4)[1] == h[j + 1]);
        }
    }
    lemma_unmarked(h);
    lemma_rows_are_rows(h);
    let p = split_on(h, '\n');
    assert(h[1] == ' ');
    assert(begins(p[0], "## "@) ==> false) by {
        let t = h.skip(1);
        let a = seq!['#'];
        assert(a + t =~= h);
        lemma_split_before(a, t);
        let b = seq![' '];
        assert(b + t.skip(1) =~= t);
        lemma_split_before(b, t.skip(1));
        assert(p[0] =~= a + (b + split_on(t.skip(1), '\n')[0]));
        if begins(p[0], "## "@) {
            assert(p[0].take(3)[1] == ' ');
            assert("## "@[1] == '#');
        }
    }
}

/// A note whose body has no dated heading has nothing that waits.
pub proof fn undated_note_has_nothing_waiting(body: Seq<char>)
    requires
        undated(trim(body)),
    ensures
        pending(composed(body)) == Seq::<char>::empty(),
{
    let h = MEMORY_MD_HEADER@;
    let c = composed(body);
    lemma_header_undated();
    lemma_nothing_undated();
    if !is_blank(body) {
        let e = Seq::<char>::empty();
        let t = trim(body);
        assert(t.push('\n') + e =~= t.push('\n'));
        lemma_undated_behind(t, e);
        assert(c =~= h.push('\n') + t.push('\n'));
        lemma_undated_behind(h, t.push('\n'));
        assert(c[0] == h[0]);
    }
    lemma_undated_sectioned(c);
    lemma_chunks_undated(sectioned(c));
    assert(trim(Seq::<char>::empty()) =~= Seq::<char>::empty());
}

// ---------------------------------------------------------------------------
// The consolidated region
// ---------------------------------------------------------------------------

spec fn unmarked(s: Seq<char>) -> bool {
    forall|j: int| !#[trigger] occurs_at(s, marker(), j)
}

proof fn lemma_part_unmarked(s: Seq<char>, i: int, j: int)
    requires
        unmarked(s),
        0 <= i <= j <= s.len(),
    ensures
        unmarked(s.subrange(i, j)),
{
    lemma_marker();
    let t = s.subrange(i, j);
    assert forall|k: int| !#[trigger] occurs_at(t, marker(), k) by {
        if occurs_at(t, marker(), k) {
            assert(s.subrange(i + k, i + k + 4) =~= t.subrange(k, k + 4));
            assert(occurs_at(s, marker(), i + k));
        }
    }
}

proof fn lemma_before_unmarked(s: Seq<char>)
    requires
        find(s, marker()) is Some,
    ensures
        unmarked(s.take(find(s, marker())->0)),
{
    lemma_marker();
    lemma_find(s, marker());
    let i = find(s, marker())->0;
    let t = s.take(i);
    assert forall|k: int| !#[trigger] occurs_at(t, marker(), k) by {
        if occurs_at(t, marker(), k) {
            assert(s.subrange(k, k + 4) =~= t.subrange(k, k + 4));
            assert(occurs_at(s, marker(), k));
        }
    }
}

proof fn lemma_pieces_unmarked(s: Seq<char>)
    ensures
        forall|k: int| 0 <= k < split_str(s, marker()).len() ==> unmarked(#[trigger] split_str(s, marker())[k]),
    decreases s.len(),
{
    lemma_marker();
    lemma_find(s, marker());
    let all = split_str(s, marker());
    match find(s, marker()) {
        Some(i) => {
            let rest = s.skip(i + 4);
            lemma_before_unmarked(s);
            lemma_pieces_unmarked(rest);
            assert(all == seq![s.take(i)] + split_str(rest, marker()));
            assert forall|k: int| 0 <= k < all.len() implies unmarked(#[trigger] all[k]) by {
                if k > 0 {
                    assert(all[k] == split_str(rest, marker())[k - 1]);
                }
            }
        },
        None => {},
    }
}

proof fn lemma_section_undated(c: Seq<char>)
    requires
        unmarked(c),
        !is_dated(c),
    ensures
        undated("## "@ + c),
{
    lemma_headed(c);
    lemma_unmarked(c);
    let h = "## "@ + c;
    assert forall|k: int| 0 <= k < split_on(h, '\n').len() implies plain_row(#[trigger] split_on(h, '\n')[k]) by {
        if k > 0 {
            assert(split_on(h, '\n')[k] == split_on(c, '\n')[k]);
        }
    }
}

proof fn lemma_region_undated(cs: Seq<Seq<char>>)
    requires
        forall|k: int| 0 <= k < cs.len() ==> unmarked(#[trigger] cs[k]),
    ensures
        undated(region(cs, false)),
        region(cs, false).len() > 0 ==> region(cs, false).len() > 1 && region(cs, false)[0] == '\n' && region(
            cs,
            false,
        )[1] == '#',
    decreases cs.len(),
{
    lemma_nothing_undated();
    lemma_marker();
    if cs.len() > 0 {
        let d = cs.drop_last();
        assert forall|k: int| 0 <= k < d.len() implies unmarked(#[trigger] d[k]) by {
            assert(d[k] == cs[k]);
        }
        lemma_region_undated(d);
        let rest = region(d, false);
        let c = cs.last();
        assert(unmarked(cs[cs.len() - 1]));
        if !(is_blank(c) || is_dated(c)) {
            lemma_section_undated(c);
            assert(rest + (marker() + c) =~= rest.push('\n') + ("## "@ + c));
            lemma_undated_behind(rest, "## "@ + c);
        }
    }
}

/// The first row of what stands before the first section of a file, without the
/// white space around that text.
pub open spec fn opening_row(content: Seq<char>) -> Seq<char> {
    split_on(trim(preamble(sectioned(content))), '\n')[0]
}

/// The consolidated region holds no dated heading, unless the text before the
/// first section opens with one that is indented.
pub proof fn consolidated_is_undated(content: Seq<char>)
    requires
        plain_row(opening_row(content)),
    ensures
        undated(consolidated(content)),
{
    lemma_marker();
    lemma_nothing_undated();
    let e = Seq::<char>::empty();
    let n = sectioned(content);
    let head = preamble(n);
    lemma_find(n, marker());
    let cs = chunks(n);
    match find(n, marker()) {
        Some(i) => {
            lemma_before_unmarked(n);
            lemma_pieces_unmarked(n.skip(i));
        },
        None => {
            lemma_pieces_unmarked(e);
        },
    }
    assert(unmarked(head));
    let a = trim_start(head);
    let t = trim(head);
    lemma_trim_start(head);
    lemma_trim_end(a);
    lemma_trim(head);
    let m = head.len() - a.len();
    assert(t =~= head.subrange(m, m + t.len()));
    lemma_part_unmarked(head, m, m + t.len());
    lemma_unmarked(t);
    assert(undated(t)) by {
        assert forall|k: int| 0 <= k < split_on(t, '\n').len() implies plain_row(#[trigger] split_on(t, '\n')[k]) by {
            if k == 0 {
                assert(split_on(t, '\n')[0] == opening_row(content));
            }
        }
    }
    let r = region(cs, false);
    lemma_region_undated(cs);
    if is_blank(head) {
        assert(e + r =~= r);
        if r.len() > 0 {
            lemma_undated_skip(r, 0);
            assert(!is_white(r.skip(1)[0]));
            assert(trim_start(r) == trim_start(r.skip(1)));
            assert(trim_start(r.skip(1)) == r.skip(1));
            lemma_undated_trim_end(r.skip(1));
        } else {
            assert(r =~= e);
            lemma_trim(r);
            assert(trim(r) =~= e);
        }
    } else {
        let w = t.push('\n') + r;
        lemma_undated_behind(t, r);
        assert(w[0] == t[0]);
        assert(trim_start(w) == w);
        lemma_undated_trim_end(w);
    }
}

proof fn lemma_join_first(parts: Seq<Seq<char>>)
    requires
        parts.len() > 0,
    ensures
        parts[0].len() > 0 ==> join(parts, seq!['\n']).len() > 0 && join(parts, seq!['\n'])[0] == parts[0][0],
        parts[0].len() == 0 && parts.len() > 1 && parts[1].len() > 0 ==> join(parts, seq!['\n']).len() > 1 && join(
            parts,
            seq!['\n'],
        )[0] == '\n' && join(parts, seq!['\n'])[1] == parts[1][0],
    decreases parts.len(),
{
    let nl = seq!['\n'];
    if parts.len() > 1 {
        let d = parts.drop_last();
        lemma_join_first(d);
        if parts.len() == 2 {
            assert(join(d, nl) == parts[0]);
            assert(parts.last() == parts[1]);
        }
    }
}

spec fn opens_dark(ls: Seq<Seq<char>>) -> bool {
    ls.len() > 0 ==> ls[0].len() > 0 && !is_white(ls[0][0])
}

proof fn lemma_merge_opens(m: Merge, raws: Seq<Seq<char>>)
    requires
        opens_dark(m.lines),
    ensures
        opens_dark(merge_lines(m, raws).lines),
        merge_lines(m, raws).lines.len() == m.lines.len(),
        merge_lines(m, raws).replaced ==> m.replaced || m.lines.len() > 0,
    decreases raws.len(),
{
    if raws.len() > 0 {
        let n = merge_lines(m, raws.drop_last());
        lemma_merge_opens(m, raws.drop_last());
        reveal_strlit("- ");
        match replacement(trim(raws.last())) {
            Some((before, after)) => {
                lemma_line_with_key(n.lines, entry_key(before));
            },
            None => {},
        }
    }
}

/// Trimming a merged body brings no dated heading forward.
proof fn lemma_merged_trim(body: Seq<char>, entries: Seq<char>)
    requires
        trim(body) == body,
        undated(body),
    ensures
        undated(trim(merged(body, entries))),
{
    let nl = seq!['\n'];
    let e = Seq::<char>::empty();
    lemma_trim(body);
    lemma_trim_end(body);
    assert(trim_end(body) == body);
    lemma_nothing_undated();
    let start = merge_start(body);
    lemma_rows_are_rows(body);
    let p = split_on(body, '\n');
    if body.len() > 0 {
        let a = seq![body[0]];
        assert(one_row(a));
        assert(a + body.skip(1) =~= body);
        lemma_split_before(a, body.skip(1));
        assert(p[0][0] == body[0]);
        assert(p[0].len() > 0);
        if p.len() > 1 {
            assert(start.lines[0] == strip_cr(p[0]));
            assert(p[0].len() == 1 ==> p[0].last() == body[0]);
        } else {
            assert(p.last() == p[0]);
        }
        assert(opens_dark(start.lines));
    } else {
        assert(p =~= seq![e]);
        assert(start.lines.len() == 0);
    }
    lemma_merge_opens(start, lines(entries));
    lemma_lines_plain(body);
    lemma_lines_single(entries);
    lemma_merge_rows(start, lines(entries));
    let m = merge_lines(start, lines(entries));
    if m.additions.len() > 0 {
        let w = with_additions(m.lines, m.additions);
        lemma_additions_plain(m.lines, m.additions);
        lemma_join_undated(w);
        lemma_join_first(w);
        lemma_recent_at(m.lines);
        let j = join(w, nl);
        if m.lines.len() > 0 {
            match recent_at(m.lines) {
                Some(i) => {
                    lemma_section_end(m.lines, i + 1);
                },
                None => {},
            }
            assert(w[0] == m.lines[0]);
            lemma_closed(j);
        } else {
            reveal_strlit("## 近期补充");
            assert(w[0] == e);
            assert(w[1] == MEMORY_MD_RECENT_HEADING@);
            lemma_undated_skip(j, 0);
            let k = j.skip(1);
            assert(k[0] == '#');
            lemma_closed(k);
            lemma_opened(j);
        }
    } else if m.replaced {
        lemma_join_undated(m.lines);
        lemma_join_first(m.lines);
        lemma_closed(join(m.lines, nl));
    } else {
        assert(trim(merged(body, entries)) == body);
    }
}

/// Trimming the end of a text that opens with a visible character leaves nothing
/// to trim.
proof fn lemma_closed(s: Seq<char>)
    requires
        undated(s),
        s.len() > 0,
        !is_white(s[0]),
    ensures
        undated(trim(trim_end(s))),
        trim(trim_end(s)) == trim_end(s),
{
    lemma_undated_trim_end(s);
    lemma_trim_end(s);
    let t = trim_end(s);
    if t.len() > 0 {
        assert(t[0] == s[0]);
    }
    lemma_trimmed(t);
}

/// A line feed before a visible character is trimmed away.
proof fn lemma_opened(s: Seq<char>)
    requires
        s.len() > 1,
        s[0] == '\n',
        !is_white(s[1]),
    ensures
        trim(trim_end(s)) == trim_end(s.skip(1)),
{
    let k = s.skip(1);
    assert(k[0] == s[1]);
    lemma_trim_end(k);
    lemma_trim_end(s);
    let t = trim_end(k);
    let w = k.skip(t.len() as int);
    assert(t + w =~= k);
    assert(all_white(w));
    let u = seq!['\n'] + t;
    assert(u + w =~= s);
    lemma_trim_end_white(u, w);
    assert(t.len() > 0) by {
        if t.len() == 0 {
            assert(is_white(k[0]));
        }
    }
    assert(t[0] == k[0]);
    assert(u.last() == t.last());
    assert(trim_end(u) == u);
    assert(u.skip(1) =~= t);
    assert(trim_start(u) == trim_start(t));
    assert(trim_start(t) == t);
}

/// Once the entries are merged into the consolidated region of a file, the file
/// written from it has nothing left that waits, whatever the entries say.
pub proof fn tidied_note_has_nothing_waiting(content: Seq<char>, entries: Seq<char>)
    requires
        plain_row(opening_row(content)),
    ensures
        pending(composed(merged(consolidated(content), entries))) == Seq::<char>::empty(),
{
    consolidated_is_undated(content);
    let n = sectioned(content);
    let head = preamble(n);
    lemma_trim(
        (if is_blank(head) {
            Seq::<char>::empty()
        } else {
            trim(head).push('\n')
        }) + region(chunks(n), false),
    );
    lemma_merged_trim(consolidated(content), entries);
    undated_note_has_nothing_waiting(merged(consolidated(content), entries));
}

// ---------------------------------------------------------------------------
// Appending
// ---------------------------------------------------------------------------

/// The text behind the last marker is the last piece.
proof fn lemma_last_piece(a: Seq<char>, last: Seq<char>)
    requires
        unmarked(last),
    ensures
        split_str(a + marker() + last, marker()).last() == last,
        find(a + marker() + last, marker()) matches Some(i) && 0 <= i <= a.len(),
    decreases a.len(),
{
    lemma_marker();
    let s = a + marker() + last;
    let n = a.len() as int;
    lemma_find(s, marker());
    lemma_find(last, marker());
    assert(s.subrange(n, n + 4) =~= marker());
    assert(occurs_at(s, marker(), n));
    let i = find(s, marker())->0;
    assert(s.subrange(i, i + 4) == marker());
    let rest = s.skip(i + 4);
    if i == n {
        assert(rest =~= last);
        assert(split_str(last, marker()) =~= seq![last]);
    } else {
        assert(s[n] == '\n');
        if i + 4 > n {
            assert(s.subrange(i, i + 4)[n - i] == s[n]);
        }
        let b = a.skip(i + 4);
        assert(rest =~= b + marker() + last);
        lemma_last_piece(b, last);
    }
    lemma_split_str_len(rest);
    let tail = split_str(rest, marker());
    assert((seq![s.take(i)] + tail).last() == tail.last());
}

proof fn lemma_split_str_len(s: Seq<char>)
    ensures
        split_str(s, marker()).len() > 0,
{
    match find(s, marker()) {
        Some(i) => {
            if 0 <= i && marker().len() > 0 && i + marker().len() <= s.len() {
                assert(split_str(s, marker())[0] == s.take(i));
            }
        },
        None => {},
    }
}

/// Texts that end with a section that holds `last`.
spec fn closes_with(s: Seq<char>, last: Seq<char>) -> bool {
    exists|a: Seq<char>| s == #[trigger] (a + marker() + last)
}

spec fn row_ended(b: Seq<char>) -> bool {
    b.len() > 0 ==> b.last() == '\n'
}

proof fn lemma_newlines_close(b: Seq<char>, last: Seq<char>)
    requires
        row_ended(b),
    ensures
        ({
            let t = drop_newlines(b + marker() + last);
            ||| t == "## "@ + last
            ||| exists|c: Seq<char>|
                c.len() > 0 && c.len() <= b.len() && c.last() == '\n' && c[0] != '\n' && t == #[trigger] (c + marker()
                    + last)
        }),
    decreases b.len(),
{
    lemma_marker();
    let s = b + marker() + last;
    if b.len() == 0 {
        assert(s[0] == '\n');
        assert(s.skip(1) =~= "## "@ + last);
        assert(("## "@ + last)[0] == '#');
        assert(drop_newlines("## "@ + last) == "## "@ + last);
    } else if b[0] == '\n' {
        assert(s[0] == '\n');
        assert(s.skip(1) =~= b.skip(1) + marker() + last);
        lemma_newlines_close(b.skip(1), last);
    } else {
        assert(s[0] == b[0]);
        assert(drop_newlines(s) == b + marker() + last);
    }
}

proof fn lemma_quotes_close(b: Seq<char>, last: Seq<char>)
    requires
        row_ended(b),
    ensures
        ({
            let t = drop_quotes(b + marker() + last);
            t == "## "@ + last || closes_with(t, last)
        }),
    decreases b.len(),
{
    lemma_marker();
    let s = b + marker() + last;
    let t = drop_newlines(s);
    lemma_newlines_close(b, last);
    if t == "## "@ + last {
        assert(t[0] == '#');
    } else {
        let c = choose|c: Seq<char>|
            c.len() > 0 && c.len() <= b.len() && c.last() == '\n' && c[0] != '\n' && t == #[trigger] (c + marker()
                + last);
        if t[0] == '>' {
            let p = lemma_newline_within(c, marker() + last);
            assert(c + (marker() + last) =~= t);
            let d = c.skip(p + 1);
            assert(t.skip(p + 1) =~= d + marker() + last);
            assert(d.len() > 0 ==> d.last() == c.last());
            lemma_quotes_close(d, last);
        }
    }
}

/// The first line feed of a text stands in its beginning where that ends with one.
proof fn lemma_newline_within(c: Seq<char>, rest: Seq<char>) -> (p: int)
    requires
        c.len() > 0,
        c.last() == '\n',
    ensures
        find(c + rest, seq!['\n']) == Some(p),
        0 <= p < c.len(),
{
    let s = c + rest;
    let n = c.len() - 1;
    lemma_find(s, seq!['\n']);
    assert(s.subrange(n, n + 1) =~= seq!['\n']);
    assert(occurs_at(s, seq!['\n'], n));
    find(s, seq!['\n'])->0
}

proof fn lemma_trim_start_dark(a: Seq<char>, rest: Seq<char>)
    requires
        trim_start(a).len() > 0,
    ensures
        trim_start(a + rest) == trim_start(a) + rest,
    decreases a.len(),
{
    assert((a + rest)[0] == a[0]);
    if is_white(a[0]) {
        assert((a + rest).skip(1) =~= a.skip(1) + rest);
        lemma_trim_start_dark(a.skip(1), rest);
    }
}

proof fn lemma_sectioned_closes(base: Seq<char>, last: Seq<char>)
    requires
        !is_blank(base),
        base.last() == '\n',
    ensures
        closes_with(sectioned(base + marker() + last), last),
{
    lemma_marker();
    let c = base + marker() + last;
    assert(c =~= base + (marker() + last));
    lemma_trim_start(base);
    lemma_trim_end(trim_start(base));
    lemma_trim_start_dark(base, marker() + last);
    let u = trim_start(base);
    let t = trim_start(c);
    assert(t =~= u + marker() + last);
    assert(u.last() == base.last());
    let body = without_head(c);
    if is_title(first_line(t)) {
        let p = lemma_newline_within(u, marker() + last);
        assert(u + (marker() + last) =~= t);
        let b = u.skip(p + 1);
        assert(t.skip(p + 1) =~= b + marker() + last);
        assert(b.len() > 0 ==> b.last() == u.last());
        lemma_quotes_close(b, last);
    } else {
        assert(body == u + marker() + last);
        assert(closes_with(body, last));
    }
    let s = sectioned(c);
    if body == "## "@ + last {
        assert(body.take(3) =~= "## "@);
        let e = Seq::<char>::empty();
        assert(s =~= e + marker() + last);
        assert(closes_with(s, last));
    } else {
        let a = choose|a: Seq<char>| body == #[trigger] (a + marker() + last);
        if begins(body, "## "@) {
            let d = seq!['\n'] + a;
            assert(s =~= d + marker() + last);
            assert(closes_with(s, last));
        }
    }
}

/// What is appended under a date and time waits to be tidied: the waiting region
/// ends with it. Where the file stays within its budget, that is what is written.
pub proof fn appended_section_waits(existing: Seq<char>, stamp: Seq<char>, body: Seq<char>)
    requires
        is_date_time(stamp),
        !is_blank(body),
        forall|j: int| !#[trigger] occurs_at(seq!['\n'] + trim(body), "\n## "@, j),
    ensures
        ends(pending(appended(existing, stamp, body)), "## "@ + stamp + seq!['\n'] + trim(body)),
        appended(existing, stamp, body).len() <= MEMORY_MD_MAX_CHARS ==> budgeted(appended(existing, stamp, body))
            == appended(existing, stamp, body),
{
    lemma_marker();
    lemma_trim(body);
    let tb = trim(body);
    let last = stamp + seq!['\n'] + tb + seq!['\n'];
    let base = if is_blank(existing) {
        MEMORY_MD_HEADER@
    } else {
        existing
    };
    lemma_header_undated();
    assert(!is_blank(base)) by {
        lemma_trim_start(base);
        lemma_trim_end(trim_start(base));
        if is_blank(existing) {
            assert(trim_start(base) == base);
            if trim_end(base).len() == 0 {
                assert(is_white(base[0]));
            }
        }
    }
    let ended = if base.len() > 0 && base.last() == '\n' {
        base
    } else {
        base.push('\n')
    };
    assert(!is_blank(ended)) by {
        if ended != base {
            let w = seq!['\n'];
            assert(base + w =~= ended);
            lemma_trim_white(base, w);
        }
    }
    let c = appended(existing, stamp, body);
    assert(c =~= ended + marker() + last);
    lemma_stamp(stamp);
    lemma_stamped_unmarked(stamp, tb);
    lemma_sectioned_closes(ended, last);
    let n = sectioned(c);
    let a = choose|a: Seq<char>| n == #[trigger] (a + marker() + last);
    lemma_last_piece(a, last);
    let i = find(n, marker())->0;
    assert(n.skip(i) =~= a.skip(i) + marker() + last);
    lemma_last_piece(a.skip(i), last);
    let cs = chunks(n);
    lemma_split_str_len(n.skip(i));
    assert(cs.last() == last);
    assert(is_dated(last)) by {
        assert(last =~= stamp.push('\n') + (tb + seq!['\n']));
        lemma_split_two(stamp, tb + seq!['\n']);
        lemma_one_row(stamp);
        lemma_first_row(last);
        assert(split_on(last, '\n')[0] == stamp);
    }
    assert(!is_blank(last)) by {
        assert(last[0] == stamp[0]);
        assert(trim_start(last) == last);
        lemma_trim_end(last);
        if trim_end(last).len() == 0 {
            assert(is_white(last[0]));
        }
    }
    let rest = region(cs.drop_last(), true);
    let x = rest + (marker() + last);
    assert(region(cs, true) == x);
    let d = "## "@ + stamp + seq!['\n'] + tb;
    let w = seq!['\n'];
    assert(x =~= rest + w + d + w);
    lemma_trim_start(x);
    let y = trim_start(x);
    let k = x.len() - y.len();
    if k > rest.len() + 1 {
        assert(x[rest.len() as int + 1] == '#');
        assert(is_white(x[rest.len() as int + 1]));
    }
    let z = (rest + w).skip(k);
    assert(y =~= z + d + w);
    lemma_trim_end_white(z + d, w);
    assert((z + d).last() == tb.last());
    assert(trim_end(z + d) == z + d);
    let out = z + d;
    assert(out.skip(out.len() - d.len()) =~= d);
}

proof fn lemma_stamp(stamp: Seq<char>)
    requires
        is_date_time(stamp),
    ensures
        one_row(stamp),
        trim(stamp) == stamp,
        !is_white(stamp[0]),
{
    assert forall|k: int| 0 <= k < stamp.len() implies stamp[k] != '\n' by {}
    lemma_trimmed(stamp);
}

proof fn lemma_stamped_unmarked(stamp: Seq<char>, tb: Seq<char>)
    requires
        one_row(stamp),
        unmarked(seq!['\n'] + tb),
    ensures
        unmarked(stamp + seq!['\n'] + tb + seq!['\n']),
{
    lemma_marker();
    let n = stamp.len() as int;
    let b = seq!['\n'] + tb;
    let last = stamp + seq!['\n'] + tb + seq!['\n'];
    assert forall|j: int| !#[trigger] occurs_at(last, marker(), j) by {
        if occurs_at(last, marker(), j) {
            let m = last.subrange(j, j + 4);
            assert(m[0] == last[j] && m[1] == last[j + 1] && m[2] == last[j + 2] && m[3] == last[j + 3]);
            if j < n {
                assert(stamp.contains(stamp[j]));
            } else if j + 4 == last.len() {
                assert(last[j + 3] == '\n');
            } else {
                assert(b.subrange(j - n, j - n + 4) =~= m);
                assert(occurs_at(b, marker(), j - n));
            }
        }
    }
}

// ---------------------------------------------------------------------------
// Merging twice
// ---------------------------------------------------------------------------

/// A line that says the same when it is merged again: it is blank or a heading, or it asks
/// for no replacement and no bullet is left behind the one that it begins with.
pub open spec fn plain_entry(raw: Seq<char>) -> bool {
    let line = trim(raw);
    line.len() == 0 || line[0] == '#' || (replacement(line) is None && bare(bare(line)) == bare(line))
}

proof fn lemma_unbulleted_trimmed(t: Seq<char>, k: int)
    requires
        trim(t) == t,
    ensures
        trim(unbulleted(t, k)) == unbulleted(t, k),
    decreases bullets().len() - k,
{
    if 0 <= k < bullets().len() {
        if begins(t, bullets()[k]) {
            lemma_trim(t.skip(bullets()[k].len() as int));
        } else {
            lemma_unbulleted_trimmed(t, k + 1);
        }
    } else {
        lemma_trimmed(Seq::<char>::empty());
    }
}

/// A new entry has the key of the line that is written for it.
proof fn lemma_bulleted_key(item: Seq<char>)
    requires
        item.len() > 0,
        trim(item) == item,
        bare(item) == item,
    ensures
        entry_key("- "@ + item) == entry_key(item),
{
    reveal_strlit("- ");
    let r = "- "@ + item;
    lemma_trim(item);
    assert(r[0] == '-');
    assert(r.last() == item.last());
    lemma_trimmed(r);
    assert(r.take(2) =~= "- "@);
    assert(bullets()[0] == "- "@);
    assert(r.skip(2) =~= item);
    assert(begins(r, bullets()[0]));
}

proof fn lemma_key_trims(r: Seq<char>, w: Seq<char>)
    requires
        all_white(w),
    ensures
        entry_key(r + w) == entry_key(r),
{
    lemma_trim_white(r, w);
}

proof fn lemma_white_has_no_key(r: Seq<char>)
    requires
        all_white(r),
    ensures
        entry_key(r).len() == 0,
{
    let e = Seq::<char>::empty();
    lemma_white_is_blank(r);
    assert(trim(r) =~= e);
    assert(bare(r) =~= e) by {
        lemma_nothing_bare(0);
    }
    lemma_trimmed(e);
    assert(collapsed(e) =~= e);
}

proof fn lemma_nothing_bare(k: int)
    ensures
        unbulleted(Seq::<char>::empty(), k).len() == 0,
    decreases bullets().len() - k,
{
    if 0 <= k < bullets().len() {
        reveal_strlit("- ");
        reveal_strlit("* ");
        reveal_strlit("+ ");
        reveal_strlit("• ");
        reveal_strlit("· ");
        lemma_nothing_bare(k + 1);
    }
}

proof fn lemma_keys(ls: Seq<Seq<char>>, k: Seq<char>)
    ensures
        keys_of(ls).contains(k) <==> k.len() > 0 && exists|i: int|
            0 <= i < ls.len() && entry_key(#[trigger] ls[i]) == k,
    decreases ls.len(),
{
    if ls.len() > 0 {
        let d = ls.drop_last();
        lemma_keys(d, k);
        if exists|i: int| 0 <= i < d.len() && entry_key(#[trigger] d[i]) == k {
            let i = choose|i: int| 0 <= i < d.len() && entry_key(#[trigger] d[i]) == k;
            assert(ls[i] == d[i]);
        }
        if exists|i: int| 0 <= i < ls.len() && entry_key(#[trigger] ls[i]) == k {
            let i = choose|i: int| 0 <= i < ls.len() && entry_key(#[trigger] ls[i]) == k;
            if i < d.len() {
                assert(d[i] == ls[i]);
            }
        }
        assert(ls[ls.len() - 1] == ls.last());
    }
}

/// The lines of rows that were joined have every key that the rows have.
proof fn lemma_joined_keys(w: Seq<Seq<char>>, k: Seq<char>)
    requires
        w.len() > 0,
        single_rows(w),
        keys_of(w).contains(k),
    ensures
        keys_of(lines(trim_end(join(w, seq!['\n'])))).contains(k),
{
    let j = join(w, seq!['\n']);
    let t = trim_end(j);
    lemma_split_join(w);
    lemma_trim_end(j);
    let white = j.skip(t.len() as int);
    assert(t + white =~= j);
    lemma_split_white(t, white);
    let p = split_on(t, '\n');
    let x = choose|x: Seq<char>| all_white(x) && w[p.len() - 1] == #[trigger] (p.last() + x);
    lemma_keys(w, k);
    let i = choose|i: int| 0 <= i < w.len() && entry_key(#[trigger] w[i]) == k;
    if i >= p.len() {
        lemma_white_has_no_key(w[i]);
    }
    assert(entry_key(p[i]) == k) by {
        if i == p.len() - 1 {
            lemma_key_trims(p.last(), x);
        }
    }
    let ls = lines(t);
    let row = p[i];
    if i == p.len() - 1 && row.len() == 0 {
        assert(all_white(row));
        lemma_white_has_no_key(row);
    }
    assert(entry_key(ls[i]) == k && i < ls.len()) by {
        if i < p.len() - 1 {
            assert(ls[i] == strip_cr(row));
            if row.len() > 0 && row.last() == '\r' {
                let cr = seq!['\r'];
                assert(row.drop_last() + cr =~= row);
                lemma_key_trims(row.drop_last(), cr);
            }
        } else {
            assert(ls[i] == row);
        }
    }
    lemma_keys(ls, k);
}

/// What merging plain entries leaves: the lines as they were, nothing replaced, and new
/// entries that are written as they are.
proof fn lemma_plain_merge(m: Merge, raws: Seq<Seq<char>>)
    requires
        !m.replaced,
        m.additions.len() == 0,
        forall|k: int| 0 <= k < raws.len() ==> plain_entry(#[trigger] raws[k]),
    ensures
        merge_lines(m, raws).lines == m.lines,
        !merge_lines(m, raws).replaced,
        forall|i: int|
            0 <= i < merge_lines(m, raws).additions.len() ==> ({
                let a = #[trigger] merge_lines(m, raws).additions[i];
                a.len() > 0 && trim(a) == a && bare(a) == a && entry_key(a).len() > 0
            }),
    decreases raws.len(),
{
    if raws.len() > 0 {
        let d = raws.drop_last();
        assert forall|k: int| 0 <= k < d.len() implies plain_entry(#[trigger] d[k]) by {
            assert(d[k] == raws[k]);
        }
        lemma_plain_merge(m, d);
        assert(plain_entry(raws[raws.len() - 1]));
        let line = trim(raws.last());
        lemma_trim(raws.last());
        lemma_unbulleted_trimmed(trim(line), 0);
    }
}

/// The second merge of plain entries takes none of them, where their keys are known.
proof fn lemma_known_merge(m: Merge, raws: Seq<Seq<char>>)
    requires
        forall|k: int| 0 <= k < raws.len() ==> plain_entry(#[trigger] raws[k]),
        forall|k: int|
            0 <= k < raws.len() ==> ({
                let line = trim(#[trigger] raws[k]);
                line.len() == 0 || line[0] == '#' || bare(line).len() == 0 || entry_key(bare(line)).len() == 0
                    || m.known.contains(entry_key(bare(line)))
            }),
    ensures
        merge_lines(m, raws) == m,
    decreases raws.len(),
{
    if raws.len() > 0 {
        let d = raws.drop_last();
        assert forall|k: int| 0 <= k < d.len() implies plain_entry(#[trigger] d[k]) by {
            assert(d[k] == raws[k]);
        }
        assert forall|k: int| 0 <= k < d.len() implies ({
            let line = trim(#[trigger] d[k]);
            line.len() == 0 || line[0] == '#' || bare(line).len() == 0 || entry_key(bare(line)).len() == 0
                || m.known.contains(entry_key(bare(line)))
        }) by {
            assert(d[k] == raws[k]);
        }
        lemma_known_merge(m, d);
        let last = raws[raws.len() - 1];
        assert(plain_entry(last));
        lemma_trim(last);
    }
}

/// The rows after new entries were put in hold each row that there was and each entry.
proof fn lemma_additions_hold(ls: Seq<Seq<char>>, additions: Seq<Seq<char>>)
    ensures
        forall|i: int| 0 <= i < ls.len() ==> with_additions(ls, additions).contains(#[trigger] ls[i]),
        forall|i: int|
            0 <= i < additions.len() ==> with_additions(ls, additions).contains("- "@ + #[trigger] additions[i]),
{
    let w = with_additions(ls, additions);
    let b = bulleted(additions);
    let none = Seq::<char>::empty();
    lemma_recent_at(ls);
    match recent_at(ls) {
        Some(at) => {
            lemma_section_end(ls, at + 1);
            let end = section_end(ls, at + 1);
            let gap = if end > 0 && is_blank(ls[end - 1]) {
                Seq::<Seq<char>>::empty()
            } else {
                seq![none]
            };
            let g = end + gap.len();
            assert forall|i: int| 0 <= i < ls.len() implies w.contains(#[trigger] ls[i]) by {
                if i < end {
                    assert(w[i] == ls[i]);
                } else {
                    assert(w[g + b.len() + 1 + (i - end)] == ls[i]);
                }
            }
            assert forall|i: int| 0 <= i < additions.len() implies w.contains("- "@ + #[trigger] additions[i]) by {
                assert(w[g + i] == b[i]);
            }
        },
        None => {
            assert forall|i: int| 0 <= i < ls.len() implies w.contains(#[trigger] ls[i]) by {
                assert(w[i] == ls[i]);
            }
            assert forall|i: int| 0 <= i < additions.len() implies w.contains("- "@ + #[trigger] additions[i]) by {
                assert(w[ls.len() + 3 + i] == b[i]);
            }
        },
    }
}

proof fn lemma_single_additions(ls: Seq<Seq<char>>, additions: Seq<Seq<char>>)
    requires
        single_rows(ls),
        single_rows(additions),
    ensures
        single_rows(with_additions(ls, additions)),
        with_additions(ls, additions).len() > 0,
{
    lemma_heading_plain();
    lemma_recent_at(ls);
    let b = bulleted(additions);
    assert(single_rows(b)) by {
        assert forall|k: int| 0 <= k < b.len() implies one_row(#[trigger] b[k]) by {
            assert(one_row(additions[k]));
            lemma_bulleted_row(additions[k]);
        }
    }
    let none = Seq::<char>::empty();
    let w = with_additions(ls, additions);
    match recent_at(ls) {
        Some(i) => {
            lemma_section_end(ls, i + 1);
            let end = section_end(ls, i + 1);
            let gap = if end > 0 && is_blank(ls[end - 1]) {
                Seq::<Seq<char>>::empty()
            } else {
                seq![none]
            };
            let g = end + gap.len();
            assert forall|k: int| 0 <= k < w.len() implies one_row(#[trigger] w[k]) by {
                if k < end {
                    assert(w[k] == ls[k]);
                } else if k < g {
                    assert(w[k] == none);
                } else if k < g + b.len() {
                    assert(w[k] == b[k - g]);
                } else if k == g + b.len() {
                    assert(w[k] == none);
                } else {
                    assert(w[k] == ls[k - (g + b.len() + 1) + end]);
                }
            }
        },
        None => {
            assert forall|k: int| 0 <= k < w.len() implies one_row(#[trigger] w[k]) by {
                if k < ls.len() {
                    assert(w[k] == ls[k]);
                } else if k >= ls.len() + 3 {
                    assert(w[k] == b[k - ls.len() - 3]);
                }
            }
        },
    }
}

proof fn lemma_single_merge(m: Merge, raws: Seq<Seq<char>>)
    requires
        single_rows(m.additions),
        single_rows(raws),
    ensures
        single_rows(merge_lines(m, raws).additions),
    decreases raws.len(),
{
    if raws.len() > 0 {
        let d = raws.drop_last();
        assert(single_rows(d)) by {
            assert forall|k: int| 0 <= k < d.len() implies one_row(#[trigger] d[k]) by {
                assert(one_row(raws[k]));
            }
        }
        lemma_single_merge(m, d);
        let n = merge_lines(m, d);
        assert(one_row(raws[raws.len() - 1]));
        let line = trim(raws.last());
        lemma_row_trim(raws.last());
        lemma_take_entry(n, line);
        lemma_row_replacement(line);
        match replacement(line) {
            Some((before, after)) => {
                lemma_take_entry(n, after);
            },
            None => {},
        }
    }
}

/// Merging the same entries a second time changes nothing, where none of them asks for a
/// replacement and none keeps a second bullet.
pub proof fn merging_twice_changes_nothing(body: Seq<char>, entries: Seq<char>)
    requires
        forall|k: int| 0 <= k < lines(entries).len() ==> plain_entry(#[trigger] lines(entries)[k]),
    ensures
        merged(merged(body, entries), entries) == merged(body, entries),
{
    let raws = lines(entries);
    let start = merge_start(body);
    let m = merge_lines(start, raws);
    let r = merged(body, entries);
    lemma_plain_merge(start, raws);
    lemma_trim_end(body);
    lemma_trim_end(trim_end(body));
    assert(trim_end(trim_end(body)) == trim_end(body));
    if m.additions.len() == 0 {
        assert(r == trim_end(body));
        assert(merge_start(r) == start);
    } else {
        let ls = start.lines;
        let w = with_additions(ls, m.additions);
        let j = join(w, seq!['\n']);
        lemma_lines_single(trim_end(body));
        lemma_lines_single(entries);
        lemma_single_merge(start, raws);
        lemma_single_additions(ls, m.additions);
        lemma_additions_hold(ls, m.additions);
        lemma_trim_end(j);
        lemma_trim_end(r);
        assert(r == trim_end(j));
        assert(trim_end(r) == r);
        let again = merge_start(r);
        merge_knows_additions(start, raws);
        assert forall|k: int| 0 <= k < raws.len() implies ({
            let line = trim(#[trigger] raws[k]);
            line.len() == 0 || line[0] == '#' || bare(line).len() == 0 || entry_key(bare(line)).len() == 0
                || again.known.contains(entry_key(bare(line)))
        }) by {
            let line = trim(raws[k]);
            let key = entry_key(bare(line));
            assert(plain_entry(raws[k]));
            if line.len() > 0 && line[0] != '#' && bare(line).len() > 0 && key.len() > 0 {
                merge_keeps_every_entry(start, raws, k);
                assert(m.known.contains(key));
                lemma_keys(w, key);
                if start.known.contains(key) {
                    lemma_keys(ls, key);
                    let i = choose|i: int| 0 <= i < ls.len() && entry_key(#[trigger] ls[i]) == key;
                    assert(w.contains(ls[i]));
                    let at = w.index_of(ls[i]);
                    assert(entry_key(w[at]) == key);
                } else {
                    let i = choose|i: int|
                        0 <= i < m.additions.len() && entry_key(#[trigger] m.additions[i]) == key;
                    lemma_bulleted_key(m.additions[i]);
                    assert(w.contains("- "@ + m.additions[i]));
                    let at = w.index_of("- "@ + m.additions[i]);
                    assert(entry_key(w[at]) == key);
                }
                lemma_joined_keys(w, key);
            }
        }
        lemma_known_merge(again, raws);
    }
}

// ---------------------------------------------------------------------------
// Writing and reading back
// ---------------------------------------------------------------------------

/// The sections of a body that opens with a heading, each without the mark before it.
pub open spec fn sections_of(body: Seq<char>) -> Seq<Seq<char>> {
    split_str(body.skip(3), marker())
}

proof fn lemma_region_concat(a: Seq<Seq<char>>, b: Seq<Seq<char>>, dated: bool)
    ensures
        region(a + b, dated) == region(a, dated) + region(b, dated),
    decreases b.len(),
{
    if b.len() == 0 {
        assert(a + b =~= a);
        assert(region(a, dated) + region(b, dated) =~= region(a, dated));
    } else {
        assert((a + b).drop_last() =~= a + b.drop_last());
        assert((a + b).last() == b.last());
        lemma_region_concat(a, b.drop_last(), dated);
        let c = b.last();
        if !(is_blank(c) || is_dated(c) != dated) {
            assert(region(a, dated) + region(b.drop_last(), dated) + (marker() + c) =~= region(a, dated) + (region(
                b.drop_last(),
                dated,
            ) + (marker() + c)));
        }
    }
}

proof fn lemma_region_blank()
    ensures
        region(seq![Seq::<char>::empty()], false) == Seq::<char>::empty(),
        is_blank(Seq::<char>::empty()),
{
    let s = seq![Seq::<char>::empty()];
    lemma_trimmed(Seq::<char>::empty());
    assert(s.drop_last() =~= Seq::<Seq<char>>::empty());
    assert(region(s.drop_last(), false) =~= Seq::<char>::empty());
    assert(s.last() == Seq::<char>::empty());
}

proof fn lemma_region_one(c: Seq<char>)
    requires
        !is_blank(c),
        !is_dated(c),
    ensures
        region(seq![c], false) == marker() + c,
{
    let s = seq![c];
    assert(s.drop_last() =~= Seq::<Seq<char>>::empty());
    let e = Seq::<char>::empty();
    assert(region(s.drop_last(), false) =~= e);
    assert(e + (marker() + c) =~= marker() + c);
}

/// Sections of which none is blank or dated make up the text that they were split from.
proof fn lemma_sections_whole(s: Seq<char>)
    requires
        forall|k: int|
            0 <= k < split_str(s, marker()).len() ==> !is_blank(#[trigger] split_str(s, marker())[k]) && !is_dated(
                split_str(s, marker())[k],
            ),
    ensures
        region(split_str(s, marker()), false) == marker() + s,
    decreases s.len(),
{
    lemma_marker();
    lemma_find(s, marker());
    let all = split_str(s, marker());
    match find(s, marker()) {
        Some(i) => {
            let c = s.take(i);
            let rest = s.skip(i + 4);
            let tail = split_str(rest, marker());
            assert(all == seq![c] + tail);
            assert(all[0] == c);
            assert forall|k: int| 0 <= k < tail.len() implies !is_blank(#[trigger] tail[k]) && !is_dated(tail[k]) by {
                assert(all[k + 1] == tail[k]);
            }
            lemma_sections_whole(rest);
            lemma_region_one(c);
            lemma_region_concat(seq![c], tail, false);
            assert(s.subrange(i, i + 4) == marker());
            assert(s =~= c + (marker() + rest)) by {
                assert(c + (s.subrange(i, i + 4) + rest) =~= s);
            }
            assert((marker() + c) + (marker() + rest) =~= marker() + s);
        },
        None => {
            assert(all =~= seq![s]);
            assert(all[0] == s);
            lemma_region_one(s);
        },
    }
}

/// A line feed behind a text lengthens its last piece.
proof fn lemma_pieces_ended(s: Seq<char>)
    ensures
        ({
            let p = split_str(s, marker());
            let q = split_str(s.push('\n'), marker());
            p.len() > 0 && q == p.drop_last().push(p.last().push('\n'))
        }),
    decreases s.len(),
{
    lemma_marker();
    let e = s.push('\n');
    lemma_split_str_len(s);
    lemma_find(s, marker());
    lemma_find(e, marker());
    assert forall|j: int| #[trigger] occurs_at(e, marker(), j) == occurs_at(s, marker(), j) by {
        if 0 <= j && j + 4 <= s.len() {
            assert(e.subrange(j, j + 4) =~= s.subrange(j, j + 4));
        } else if j + 4 == e.len() && 0 <= j {
            assert(e.subrange(j, j + 4)[3] == '\n');
            assert(marker()[3] == ' ');
        }
    }
    match find(s, marker()) {
        Some(i) => {
            assert(occurs_at(e, marker(), i));
            assert(find(e, marker()) is Some);
            let k = find(e, marker())->0;
            assert(occurs_at(s, marker(), k));
            assert(k == i) by {
                if k < i {
                    assert(!occurs_at(s, marker(), k));
                } else if i < k {
                    assert(!occurs_at(e, marker(), i));
                }
            }
            let rest = s.skip(i + 4);
            assert(e.take(i) =~= s.take(i));
            assert(e.skip(i + 4) =~= rest.push('\n'));
            lemma_pieces_ended(rest);
            lemma_split_str_len(rest);
            let p = split_str(rest, marker());
            let head = seq![s.take(i)];
            assert(split_str(s, marker()) == head + p);
            assert((head + p).drop_last() =~= head + p.drop_last());
            assert((head + p).last() == p.last());
            assert(head + p.drop_last().push(p.last().push('\n')) =~= (head + p.drop_last()).push(
                p.last().push('\n'),
            ));
        },
        None => {
            match find(e, marker()) {
                Some(k) => {
                    assert(occurs_at(s, marker(), k));
                },
                None => {},
            }
            assert(split_str(s, marker()) =~= seq![s]);
            assert(split_str(e, marker()) =~= seq![e]);
            assert(seq![s].drop_last().push(e) =~= seq![e]);
        },
    }
}

/// A line feed behind a section makes it neither blank nor dated.
proof fn lemma_ended_section(c: Seq<char>)
    ensures
        is_blank(c.push('\n')) == is_blank(c),
        is_dated(c.push('\n')) == is_dated(c),
{
    let w = seq!['\n'];
    assert(c + w =~= c.push('\n'));
    lemma_trim_white(c, w);
    lemma_first_row(c);
    lemma_first_row(c.push('\n'));
    lemma_split_push(c, '\n');
    assert(split_on(c.push('\n'), '\n')[0] == split_on(c, '\n')[0]);
}

/// The quoted line at the beginning of a text is dropped, and so is what that drops.
proof fn lemma_quote_dropped(line: Seq<char>, rest: Seq<char>)
    requires
        line.len() > 0,
        line[0] == '>',
        one_row(line),
    ensures
        drop_quotes(line + seq!['\n'] + rest) == drop_quotes(rest),
{
    let s = line + seq!['\n'] + rest;
    assert(s[0] == '>');
    assert(drop_newlines(s) == s);
    let c = line.push('\n');
    assert(c + rest =~= s);
    let p = lemma_newline_within(c, rest);
    lemma_newline_found(s);
    assert(p == line.len()) by {
        if p < line.len() {
            assert(s[p] == line[p]);
            assert(line.contains(line[p]));
        }
    }
    assert(s.skip(p + 1) =~= rest);
}

/// The head of the file is taken off, with the line feeds behind it.
proof fn lemma_head_off(rest: Seq<char>)
    ensures
        without_head(MEMORY_MD_HEADER@ + rest) == drop_quotes(rest),
{
    let h = MEMORY_MD_HEADER@;
    let c = h + rest;
    reveal_strlit("# 长期记忆笔记\n\n> 本文件随对话自动沉淀（只记相处约定、承诺、教训和梗），睡眠期自动整理合并。\n> 每次对话全量注入上下文，是与主人相处的长期约定。\n");
    reveal_strlit("# 长期记忆笔记");
    reveal_strlit("> 本文件随对话自动沉淀（只记相处约定、承诺、教训和梗），睡眠期自动整理合并。");
    reveal_strlit("> 每次对话全量注入上下文，是与主人相处的长期约定。");
    reveal_strlit("# ");
    let title = "# 长期记忆笔记"@;
    let first = "> 本文件随对话自动沉淀（只记相处约定、承诺、教训和梗），睡眠期自动整理合并。"@;
    let second = "> 每次对话全量注入上下文，是与主人相处的长期约定。"@;
    let nl = seq!['\n'];
    assert(h =~= title + nl + (nl + (first + nl + (second + nl))));
    let after = nl + (first + nl + (second + nl + rest));
    assert(c =~= title + nl + after);
    assert(one_row(title)) by {
        assert forall|k: int| 0 <= k < title.len() implies title[k] != '\n' by {}
    }
    assert(one_row(first)) by {
        assert forall|k: int| 0 <= k < first.len() implies first[k] != '\n' by {}
    }
    assert(one_row(second)) by {
        assert forall|k: int| 0 <= k < second.len() implies second[k] != '\n' by {}
    }
    assert(c[0] == title[0]);
    assert(!is_white('#'));
    assert(trim_start(c) == c);
    assert(title.push('\n') + after =~= c);
    lemma_split_two(title, after);
    lemma_one_row(title);
    lemma_rows_are_rows(after);
    assert(split_on(c, '\n')[0] == title);
    assert(first_line(c) == title) by {
        assert(lines(c)[0] == strip_cr(title));
        assert(title.last() != '\r');
    }
    assert(title.take(2) =~= "# "@);
    assert(is_title(first_line(c)));
    let p = lemma_newline_within(title.push('\n'), after);
    lemma_newline_found(c);
    assert(p == title.len()) by {
        if p < title.len() {
            assert(c[p] == title[p]);
            assert(title.contains(title[p]));
        }
    }
    assert(c.skip(p + 1) =~= after);
    let tail = first + nl + (second + nl + rest);
    assert(after[0] == '\n');
    assert(after.skip(1) =~= tail);
    assert(drop_newlines(after) == drop_newlines(tail));
    assert(drop_quotes(after) == drop_quotes(tail)) by {
        assert(tail[0] == '>');
        assert(drop_newlines(tail) == tail);
    }
    lemma_quote_dropped(first, second + nl + rest);
    lemma_quote_dropped(second, rest);
}

/// What stands below the head of a file that is written.
proof fn lemma_written_body(t: Seq<char>)
    requires
        t.len() > 0,
        t[0] != '\n',
        t[0] != '>',
    ensures
        without_head(MEMORY_MD_HEADER@ + seq!['\n'] + t + seq!['\n']) == t.push('\n'),
{
    let nl = seq!['\n'];
    let rest = nl + t + nl;
    assert(MEMORY_MD_HEADER@ + nl + t + nl =~= MEMORY_MD_HEADER@ + rest);
    lemma_head_off(rest);
    let e = t.push('\n');
    assert(rest[0] == '\n');
    assert(rest.skip(1) =~= e);
    assert(e[0] == t[0]);
    assert(drop_newlines(e) == e);
    assert(drop_newlines(rest) == e);
}

/// A body that opens with a heading comes back from the file that is written of it: without
/// white space around it, it is the consolidated region, and nothing waits. None of its
/// sections is blank or dated.
pub proof fn written_note_is_read_back(body: Seq<char>)
    requires
        begins(trim(body), "## "@),
        forall|k: int|
            0 <= k < sections_of(trim(body)).len() ==> !is_blank(#[trigger] sections_of(trim(body))[k]) && !is_dated(
                sections_of(trim(body))[k],
            ),
    ensures
        consolidated(composed(body)) == trim(body),
        pending(composed(body)) == Seq::<char>::empty(),
{
    lemma_marker();
    lemma_trim(body);
    let nl = seq!['\n'];
    let e = Seq::<char>::empty();
    let t = trim(body);
    let u = t.skip(3);
    assert(t[0] == t.take(3)[0]);
    assert(t =~= "## "@ + u) by {
        assert(t =~= t.take(3) + u);
    }
    lemma_written_body(t);
    let c = composed(body);
    let b = t.push('\n');
    assert(without_head(c) == b);
    assert(b.take(3) =~= "## "@) by {
        assert(b.take(3) =~= t.take(3));
    }
    let n = sectioned(c);
    assert(n == nl + b);
    let v = u.push('\n');
    assert(n =~= marker() + v);
    assert(n.take(4) =~= marker());
    assert(begins(n, marker()));
    assert(find(n, marker()) == Some(0int));
    assert(n.skip(0) =~= n);
    assert(n.take(0) =~= e);
    assert(n.skip(4) =~= v);
    let cs = chunks(n);
    let p = split_str(u, marker());
    let q = split_str(v, marker());
    assert(cs == seq![e] + q);
    lemma_pieces_ended(u);
    assert forall|k: int| 0 <= k < q.len() implies !is_blank(#[trigger] q[k]) && !is_dated(q[k]) by {
        if k < p.len() - 1 {
            assert(q[k] == p[k]);
            assert(p[k] == sections_of(t)[k]);
        } else {
            assert(p[p.len() - 1] == sections_of(t)[p.len() - 1]);
            lemma_ended_section(p.last());
        }
    }
    lemma_sections_whole(v);
    lemma_region_concat(seq![e], q, false);
    lemma_region_blank();
    assert(e + (marker() + v) =~= n);
    assert(region(cs, false) == n);
    assert forall|k: int| 0 <= k < cs.len() implies is_blank(#[trigger] cs[k]) || !is_dated(cs[k]) by {
        if k > 0 {
            assert(cs[k] == q[k - 1]);
        }
    }
    lemma_region_empty(cs);
    lemma_trimmed(e);
    assert(preamble(n) =~= e);
    assert(e + n =~= n);
    assert(trim(n) == trim(b)) by {
        assert(n[0] == '\n');
        assert(n.skip(1) =~= b);
    }
    assert(t + nl =~= b);
    lemma_trim_white(t, nl);
}

/// A body without headings comes back whole as the consolidated region, and nothing waits. It
/// does not open with a quoted line.
pub proof fn unsectioned_note_is_read_back(body: Seq<char>)
    requires
        trim(body).len() > 0 ==> trim(body)[0] != '>',
        !begins(trim(body), "## "@),
        forall|j: int| !#[trigger] occurs_at(trim(body), "\n## "@, j),
    ensures
        consolidated(composed(body)) == trim(body),
        pending(composed(body)) == Seq::<char>::empty(),
{
    lemma_marker();
    lemma_trim(body);
    let nl = seq!['\n'];
    let e = Seq::<char>::empty();
    let t = trim(body);
    let c = composed(body);
    let b = if t.len() == 0 {
        e
    } else {
        t.push('\n')
    };
    if t.len() == 0 {
        assert(MEMORY_MD_HEADER@ + e =~= MEMORY_MD_HEADER@);
        lemma_head_off(e);
        assert(t =~= e);
    } else {
        lemma_written_body(t);
    }
    assert(without_head(c) == b);
    assert(!begins(b, "## "@)) by {
        if begins(b, "## "@) {
            if b.len() > 3 {
                assert(b.take(3) =~= t.take(3));
            } else {
                assert(b.take(3)[2] == '\n');
                assert("## "@[2] == ' ');
            }
        }
    }
    assert(sectioned(c) == b);
    assert forall|j: int| !#[trigger] occurs_at(b, marker(), j) by {
        if occurs_at(b, marker(), j) {
            if j + 4 <= t.len() {
                assert(t.subrange(j, j + 4) =~= b.subrange(j, j + 4));
                assert(occurs_at(t, marker(), j));
            } else {
                assert(b.subrange(j, j + 4)[3] == '\n');
                assert(marker()[3] == ' ');
            }
        }
    }
    lemma_find(b, marker());
    match find(b, marker()) {
        Some(i) => {
            assert(occurs_at(b, marker(), i));
        },
        None => {},
    }
    lemma_find(e, marker());
    let cs = chunks(b);
    assert(cs =~= seq![e]);
    lemma_region_blank();
    lemma_region_empty(cs);
    lemma_trimmed(e);
    if t.len() > 0 {
        assert(t + nl =~= b);
        lemma_trim_white(t, nl);
        assert(!is_blank(b));
        assert(trim(b).push('\n') + e =~= b);
    } else {
        assert(e + e =~= e);
    }
}

} // verus!
