//! Memories that a character starts with: reading their definitions, cutting long
//! ones into chunks, and letting them fade once there are real memories.

use crate::text::{begins, capital, capital_of, chars_of, copy_chars, copy_strings, digit_char,
    first_chars, head_of, is_digit, lines, list_has, opt_text, push_chars, rows, same, same_chars,
    split_char, split_lines, split_on, starts_with_chars, string_of, texts, trim, trim_chars};
use crate::types::{random_uuid, Granularity, HookView, ItemView, MemoryItem, MetaValue, MetaView,
    Metadata};
use vstd::prelude::*;
use vstd::slice::*;
use vstd::string::*;

verus! {

/// Largest number of characters of a chunk.
pub const SEED_CHUNK_MAX_CHARS: usize = 60;

// ---------------------------------------------------------------------------
// Chunks
// ---------------------------------------------------------------------------

/// A character that ends a sentence.
pub open spec fn ends_sentence(c: char) -> bool {
    c == '。' || c == '！' || c == '？' || c == '\n'
}

/// The sentences that have ended, and what follows the last of them.
pub open spec fn sentences(s: Seq<char>) -> (Seq<Seq<char>>, Seq<char>)
    decreases s.len(),
{
    if s.len() == 0 {
        (Seq::<Seq<char>>::empty(), Seq::<char>::empty())
    } else {
        let p = sentences(s.drop_last());
        let cur = p.1.push(s.last());
        if ends_sentence(s.last()) {
            (p.0.push(cur), Seq::<char>::empty())
        } else {
            (p.0, cur)
        }
    }
}

/// All sentences, the last of which may not have ended.
pub open spec fn all_sentences(s: Seq<char>) -> Seq<Seq<char>> {
    let p = sentences(s);
    if p.1.len() > 0 {
        p.0.push(p.1)
    } else {
        p.0
    }
}

/// The sentences put together as long as they fit: the chunks that are full, and the
/// one that is being filled.
pub open spec fn gathered(list: Seq<Seq<char>>, max: int) -> (Seq<Seq<char>>, Seq<char>)
    decreases list.len(),
{
    if list.len() == 0 {
        (Seq::<Seq<char>>::empty(), Seq::<char>::empty())
    } else {
        let p = gathered(list.drop_last(), max);
        let s = list.last();
        if p.1.len() == 0 {
            (p.0, s)
        } else if p.1.len() + s.len() <= max {
            (p.0, p.1 + s)
        } else {
            (p.0.push(p.1), s)
        }
    }
}

/// All chunks of whole sentences.
pub open spec fn all_gathered(list: Seq<Seq<char>>, max: int) -> Seq<Seq<char>> {
    let p = gathered(list, max);
    if p.1.len() > 0 {
        p.0.push(p.1)
    } else {
        p.0
    }
}

/// A chunk cut into pieces of `n` characters.
pub open spec fn cut(c: Seq<char>, n: int) -> Seq<Seq<char>>
    decreases c.len(),
{
    if c.len() <= n || n <= 0 {
        seq![c]
    } else {
        seq![c.take(n)] + cut(c.skip(n), n)
    }
}

/// The size of a piece: one character at least.
pub open spec fn piece_size(max: int) -> int {
    if max < 1 {
        1
    } else {
        max
    }
}

/// The chunks, those that are too long cut into pieces.
pub open spec fn cut_all(list: Seq<Seq<char>>, max: int) -> Seq<Seq<char>>
    decreases list.len(),
{
    if list.len() == 0 {
        Seq::<Seq<char>>::empty()
    } else {
        cut_all(list.drop_last(), max) + cut(list.last(), piece_size(max))
    }
}

/// The chunks of a content: whole sentences as long as they fit, and pieces of a
/// sentence that is too long.
pub open spec fn chunks_of(content: Seq<char>, max: int) -> Seq<Seq<char>> {
    cut_all(all_gathered(all_sentences(content), max), max)
}

/// The parts one after the other.
pub open spec fn glued(parts: Seq<Seq<char>>) -> Seq<char>
    decreases parts.len(),
{
    if parts.len() == 0 {
        Seq::<char>::empty()
    } else {
        glued(parts.drop_last()) + parts.last()
    }
}

proof fn lemma_glued_push(a: Seq<Seq<char>>, x: Seq<char>)
    ensures
        glued(a.push(x)) == glued(a) + x,
{
    assert(a.push(x).drop_last() =~= a);
}

proof fn lemma_glued_add(a: Seq<Seq<char>>, b: Seq<Seq<char>>)
    ensures
        glued(a + b) == glued(a) + glued(b),
    decreases b.len(),
{
    if b.len() == 0 {
        assert(a + b =~= a);
        assert(glued(a) + glued(b) =~= glued(a));
    } else {
        assert((a + b).drop_last() =~= a + b.drop_last());
        lemma_glued_add(a, b.drop_last());
        assert(glued(a + b) =~= glued(a) + glued(b));
    }
}

proof fn lemma_sentences(s: Seq<char>)
    ensures
        glued(sentences(s).0) + sentences(s).1 == s,
        forall|i: int| 0 <= i < sentences(s).0.len() ==> (#[trigger] sentences(s).0[i]).len() > 0,
    decreases s.len(),
{
    if s.len() == 0 {
        assert(glued(sentences(s).0) + sentences(s).1 =~= s);
    } else {
        lemma_sentences(s.drop_last());
        let p = sentences(s.drop_last());
        let cur = p.1.push(s.last());
        lemma_glued_push(p.0, cur);
        assert(glued(p.0) + cur =~= (glued(p.0) + p.1).push(s.last()));
        assert(s.drop_last().push(s.last()) =~= s);
        assert(glued(sentences(s).0) + sentences(s).1 =~= glued(p.0) + cur);
    }
}

proof fn lemma_all_sentences(s: Seq<char>)
    ensures
        glued(all_sentences(s)) == s,
        forall|i: int| 0 <= i < all_sentences(s).len() ==> (#[trigger] all_sentences(s)[i]).len() > 0,
{
    lemma_sentences(s);
    let p = sentences(s);
    lemma_glued_push(p.0, p.1);
    if p.1.len() == 0 {
        assert(glued(p.0) + p.1 =~= glued(p.0));
    }
}

proof fn lemma_gathered(list: Seq<Seq<char>>, max: int)
    requires
        forall|i: int| 0 <= i < list.len() ==> (#[trigger] list[i]).len() > 0,
    ensures
        glued(gathered(list, max).0) + gathered(list, max).1 == glued(list),
        forall|i: int|
            0 <= i < gathered(list, max).0.len() ==> (#[trigger] gathered(list, max).0[i]).len() > 0,
    decreases list.len(),
{
    if list.len() == 0 {
        assert(glued(gathered(list, max).0) + gathered(list, max).1 =~= glued(list));
    } else {
        assert forall|i: int| 0 <= i < list.drop_last().len() implies (#[trigger] list.drop_last()[i]).len()
            > 0 by {
            assert(list.drop_last()[i] == list[i]);
        }
        lemma_gathered(list.drop_last(), max);
        let p = gathered(list.drop_last(), max);
        lemma_glued_push(p.0, p.1);
        assert(glued(gathered(list, max).0) + gathered(list, max).1 =~= glued(list));
    }
}

proof fn lemma_cut(c: Seq<char>, n: int)
    requires
        n >= 1,
    ensures
        glued(cut(c, n)) == c,
        forall|i: int| 0 <= i < cut(c, n).len() ==> (#[trigger] cut(c, n)[i]).len() <= n,
        c.len() > 0 ==> forall|i: int| 0 <= i < cut(c, n).len() ==> (#[trigger] cut(c, n)[i]).len() > 0,
    decreases c.len(),
{
    if c.len() <= n {
        lemma_glued_push(Seq::empty(), c);
        assert(Seq::<Seq<char>>::empty().push(c) =~= seq![c]);
        assert(glued(seq![c]) =~= c);
    } else {
        let rest = cut(c.skip(n), n);
        lemma_cut(c.skip(n), n);
        lemma_glued_add(seq![c.take(n)], rest);
        lemma_glued_push(Seq::empty(), c.take(n));
        assert(Seq::<Seq<char>>::empty().push(c.take(n)) =~= seq![c.take(n)]);
        assert(c.take(n) + c.skip(n) =~= c);
        assert(glued(cut(c, n)) =~= c);
        assert forall|i: int| 0 <= i < cut(c, n).len() implies (#[trigger] cut(c, n)[i]).len() <= n by {
            if i > 0 {
                assert(cut(c, n)[i] == rest[i - 1]);
            }
        }
        assert forall|i: int| 0 <= i < cut(c, n).len() implies (#[trigger] cut(c, n)[i]).len() > 0 by {
            if i > 0 {
                assert(cut(c, n)[i] == rest[i - 1]);
            }
        }
    }
}

proof fn lemma_cut_all(list: Seq<Seq<char>>, max: int)
    requires
        forall|i: int| 0 <= i < list.len() ==> (#[trigger] list[i]).len() > 0,
    ensures
        glued(cut_all(list, max)) == glued(list),
        forall|i: int|
            0 <= i < cut_all(list, max).len() ==> 0 < (#[trigger] cut_all(list, max)[i]).len()
                <= piece_size(max),
    decreases list.len(),
{
    if list.len() > 0 {
        assert forall|i: int| 0 <= i < list.drop_last().len() implies (#[trigger] list.drop_last()[i]).len()
            > 0 by {
            assert(list.drop_last()[i] == list[i]);
        }
        lemma_cut_all(list.drop_last(), max);
        let a = cut_all(list.drop_last(), max);
        let b = cut(list.last(), piece_size(max));
        lemma_cut(list.last(), piece_size(max));
        lemma_glued_add(a, b);
        assert forall|i: int| 0 <= i < cut_all(list, max).len() implies 0 < (#[trigger] cut_all(
            list,
            max,
        )[i]).len() <= piece_size(max) by {
            if i < a.len() {
                assert(cut_all(list, max)[i] == a[i]);
            } else {
                assert(cut_all(list, max)[i] == b[i - a.len()]);
            }
        }
    }
}

proof fn lemma_parts_len(parts: Seq<Seq<char>>)
    requires
        forall|i: int| 0 <= i < parts.len() ==> (#[trigger] parts[i]).len() > 0,
    ensures
        parts.len() <= glued(parts).len(),
    decreases parts.len(),
{
    if parts.len() > 0 {
        assert forall|i: int| 0 <= i < parts.drop_last().len() implies (#[trigger] parts.drop_last()[i]).len()
            > 0 by {
            assert(parts.drop_last()[i] == parts[i]);
        }
        lemma_parts_len(parts.drop_last());
        assert(parts[parts.len() - 1].len() > 0);
    }
}

/// Chunking loses nothing: the chunks one after the other are the content, none is empty
/// and none is longer than allowed.
pub proof fn chunks_are_the_content(content: Seq<char>, max: int)
    ensures
        glued(chunks_of(content, max)) == content,
        forall|i: int|
            0 <= i < chunks_of(content, max).len() ==> 0 < (#[trigger] chunks_of(
                content,
                max,
            )[i]).len() <= piece_size(max),
{
    lemma_all_sentences(content);
    let list = all_sentences(content);
    lemma_gathered(list, max);
    let p = gathered(list, max);
    lemma_glued_push(p.0, p.1);
    let g = all_gathered(list, max);
    if p.1.len() == 0 {
        assert(glued(p.0) + p.1 =~= glued(p.0));
    }
    assert forall|i: int| 0 <= i < g.len() implies (#[trigger] g[i]).len() > 0 by {
        if i < p.0.len() {
            assert(g[i] == p.0[i]);
        }
    }
    lemma_cut_all(g, max);
}

fn find_sentences(cs: &[char]) -> (out: Vec<Vec<char>>)
    ensures
        rows(out@) == all_sentences(cs@),
{
    let mut out: Vec<Vec<char>> = Vec::new();
    let mut cur: Vec<char> = Vec::new();
    let mut i: usize = 0;
    assert(rows(out@) =~= sentences(cs@.take(0)).0);
    assert(cur@ =~= sentences(cs@.take(0)).1);
    while i < cs.len()
        invariant
            i <= cs@.len(),
            rows(out@) == sentences(cs@.take(i as int)).0,
            cur@ == sentences(cs@.take(i as int)).1,
        decreases cs@.len() - i,
    {
        let c = cs[i];
        proof {
            assert(cs@.take(i + 1).drop_last() =~= cs@.take(i as int));
            assert(cs@.take(i + 1).last() == c);
        }
        cur.push(c);
        if c == '。' || c == '！' || c == '？' || c == '\n' {
            let ghost prev = rows(out@);
            let ghost piece = cur@;
            out.push(cur);
            cur = Vec::new();
            assert(rows(out@) =~= prev.push(piece));
            assert(cur@ =~= Seq::<char>::empty());
        }
        i += 1;
    }
    assert(cs@.take(i as int) =~= cs@);
    if cur.len() > 0 {
        let ghost prev = rows(out@);
        let ghost piece = cur@;
        out.push(cur);
        assert(rows(out@) =~= prev.push(piece));
    }
    out
}

fn gather(list: &Vec<Vec<char>>, max: usize) -> (out: Vec<Vec<char>>)
    ensures
        rows(out@) == all_gathered(rows(list@), max as int),
{
    let ghost all = rows(list@);
    let mut out: Vec<Vec<char>> = Vec::new();
    let mut buf: Vec<char> = Vec::new();
    let mut i: usize = 0;
    assert(rows(out@) =~= gathered(all.take(0), max as int).0);
    assert(buf@ =~= gathered(all.take(0), max as int).1);
    while i < list.len()
        invariant
            i <= list@.len(),
            all == rows(list@),
            rows(out@) == gathered(all.take(i as int), max as int).0,
            buf@ == gathered(all.take(i as int), max as int).1,
        decreases list@.len() - i,
    {
        proof {
            assert(all.take(i + 1).drop_last() =~= all.take(i as int));
            assert(all.take(i + 1).last() == list@[i as int]@);
        }
        let s = list[i].as_slice();
        let fits = s.len() <= max && buf.len() <= max - s.len();
        if buf.len() == 0 {
            buf = copy_chars(s);
        } else if fits {
            push_chars(&mut buf, s);
        } else {
            let ghost prev = rows(out@);
            let ghost piece = buf@;
            out.push(buf);
            buf = copy_chars(s);
            assert(rows(out@) =~= prev.push(piece));
        }
        i += 1;
    }
    assert(all.take(i as int) =~= all);
    if buf.len() > 0 {
        let ghost prev = rows(out@);
        let ghost piece = buf@;
        out.push(buf);
        assert(rows(out@) =~= prev.push(piece));
    }
    out
}

fn push_cut(out: &mut Vec<Vec<char>>, c: &[char], n: usize)
    requires
        n >= 1,
    ensures
        rows(final(out)@) == rows(old(out)@) + cut(c@, n as int),
{
    let ghost start = rows(out@);
    let mut pos: usize = 0;
    assert(c@.skip(0) =~= c@);
    assert(rows(out@) + cut(c@, n as int) =~= start + cut(c@, n as int));
    while c.len() - pos > n
        invariant
            n >= 1,
            pos <= c@.len(),
            rows(out@) + cut(c@.skip(pos as int), n as int) == start + cut(c@, n as int),
        decreases c@.len() - pos,
    {
        let ghost prev = rows(out@);
        let ghost rest = c@.skip(pos as int);
        let piece = copy_chars(slice_subrange(c, pos, pos + n));
        assert(piece@ =~= rest.take(n as int));
        let ghost text = piece@;
        out.push(piece);
        assert(rows(out@) =~= prev.push(text));
        assert(rest.skip(n as int) =~= c@.skip(pos + n));
        pos = pos + n;
        assert(rows(out@) + cut(c@.skip(pos as int), n as int) =~= prev + cut(rest, n as int));
    }
    let ghost prev = rows(out@);
    let last = copy_chars(slice_subrange(c, pos, c.len()));
    assert(last@ =~= c@.skip(pos as int));
    let ghost text = last@;
    out.push(last);
    assert(rows(out@) =~= prev + cut(c@.skip(pos as int), n as int));
}

/// The chunks of a content.
pub fn chunk_seed_content(content: &str, max_chars: usize) -> (out: Vec<String>)
    ensures
        texts(out@) == chunks_of(content@, max_chars as int),
{
    let cs = chars_of(content);
    let list = find_sentences(cs.as_slice());
    let chunks = gather(&list, max_chars);
    let n: usize = if max_chars < 1 {
        1
    } else {
        max_chars
    };
    let ghost all = rows(chunks@);
    let mut pieces: Vec<Vec<char>> = Vec::new();
    let mut i: usize = 0;
    assert(rows(pieces@) =~= cut_all(all.take(0), max_chars as int));
    while i < chunks.len()
        invariant
            i <= chunks@.len(),
            n == piece_size(max_chars as int),
            all == rows(chunks@),
            rows(pieces@) == cut_all(all.take(i as int), max_chars as int),
        decreases chunks@.len() - i,
    {
        proof {
            assert(all.take(i + 1).drop_last() =~= all.take(i as int));
            assert(all.take(i + 1).last() == chunks@[i as int]@);
        }
        push_cut(&mut pieces, chunks[i].as_slice(), n);
        i += 1;
    }
    assert(all.take(i as int) =~= all);
    let mut out: Vec<String> = Vec::new();
    let mut k: usize = 0;
    while k < pieces.len()
        invariant
            k <= pieces@.len(),
            out@.len() == k,
            forall|j: int| 0 <= j < k ==> (#[trigger] out@[j])@ == pieces@[j]@,
        decreases pieces@.len() - k,
    {
        out.push(string_of(pieces[k].as_slice()));
        k += 1;
    }
    assert(texts(out@) =~= rows(pieces@));
    out
}

// ---------------------------------------------------------------------------
// Numbers in a definition
// ---------------------------------------------------------------------------

/// The value of a digit.
pub open spec fn digit_value(c: char) -> int {
    c as u32 - 48
}

/// Only digits.
pub open spec fn all_digits(s: Seq<char>) -> bool {
    forall|i: int| 0 <= i < s.len() ==> is_digit(#[trigger] s[i])
}

/// The number that digits write.
pub open spec fn number(s: Seq<char>) -> nat
    decreases s.len(),
{
    if s.len() == 0 {
        0
    } else {
        number(s.drop_last()) * 10 + (digit_value(s.last()) as nat)
    }
}

/// Ten to the power `n`.
pub open spec fn pow10(n: nat) -> nat
    decreases n,
{
    if n == 0 {
        1
    } else {
        10 * pow10((n - 1) as nat)
    }
}

/// The position of the first `e`, in either case, or the end.
pub open spec fn exponent_mark(s: Seq<char>) -> int
    decreases s.len(),
{
    if s.len() == 0 || s[0] == 'e' || s[0] == 'E' {
        0
    } else {
        1 + exponent_mark(s.skip(1))
    }
}

/// An exponent: digits, with or without a sign before them.
pub open spec fn exponent_value(s: Seq<char>) -> Option<int> {
    let signed = s.len() > 0 && (s[0] == '-' || s[0] == '+');
    let d = if signed {
        s.skip(1)
    } else {
        s
    };
    if d.len() == 0 || !all_digits(d) {
        None
    } else if signed && s[0] == '-' {
        Some(-(number(d) as int))
    } else {
        Some(number(d) as int)
    }
}

/// The digits of a number with or without a point, and how many stand behind the point.
pub open spec fn mantissa(s: Seq<char>) -> Option<(Seq<char>, int)> {
    let parts = split_on(s, '.');
    if parts.len() > 2 || !all_digits(parts[0]) {
        None
    } else if parts.len() == 1 {
        if parts[0].len() == 0 {
            None
        } else {
            Some((parts[0], 0int))
        }
    } else if !all_digits(parts[1]) || parts[0].len() + parts[1].len() == 0 {
        None
    } else {
        Some((parts[0] + parts[1], parts[1].len() as int))
    }
}

/// The number of the digits with the point moved by `shift` places, rounded down.
pub open spec fn shifted(digits: Seq<char>, shift: int) -> int {
    if shift >= 0 {
        (number(digits) * pow10(shift as nat)) as int
    } else {
        number(digits) as int / pow10((-shift) as nat) as int
    }
}

/// The digits times ten to the power `shift` in millionths: to the nearest, and at most the
/// largest number there is.
pub open spec fn nearest_micros(digits: Seq<char>, shift: int) -> int {
    let n = (shifted(digits, shift + 7) + 5) / 10;
    if n > i64::MAX {
        i64::MAX as int
    } else {
        n
    }
}

/// The word for a number without end, in either case.
pub open spec fn endless(s: Seq<char>) -> bool {
    let u = s.map_values(|c: char| capital(c));
    u == "INF"@ || u == "INFINITY"@
}

/// A number without a sign in millionths: digits with or without a point, and with or
/// without an exponent. A number without end is the largest.
pub open spec fn unsigned_micros(s: Seq<char>) -> Option<int> {
    let m = exponent_mark(s);
    if endless(s) {
        Some(i64::MAX as int)
    } else {
        match mantissa(s.take(m)) {
            Some(d) => if m == s.len() {
                Some(nearest_micros(d.0, -d.1))
            } else {
                match exponent_value(s.skip(m + 1)) {
                    Some(e) => Some(nearest_micros(d.0, e - d.1)),
                    None => None,
                }
            },
            None => None,
        }
    }
}

/// A number in millionths.
pub open spec fn decimal_micros(s: Seq<char>) -> Option<int> {
    if s.len() > 0 && s[0] == '-' {
        match unsigned_micros(s.skip(1)) {
            Some(n) => Some(-n),
            None => None,
        }
    } else if s.len() > 0 && s[0] == '+' {
        unsigned_micros(s.skip(1))
    } else {
        unsigned_micros(s)
    }
}

fn only_digits(s: &[char]) -> (r: bool)
    ensures
        r == all_digits(s@),
{
    let mut i: usize = 0;
    while i < s.len()
        invariant
            i <= s@.len(),
            forall|k: int| 0 <= k < i ==> is_digit(#[trigger] s@[k]),
        decreases s@.len() - i,
    {
        if !digit_char(s[i]) {
            assert(!is_digit(s@[i as int]));
            return false;
        }
        i += 1;
    }
    true
}

/// The largest exponent that is told apart; no number needs one so large.
const FARTHEST: i128 = 1_000_000_000_000_000_000_000_000_000_000;

/// A number that is larger than every score.
const BEYOND: i128 = 100_000_000_000_000_000_000;

/// Whether an exponent is kept as that number.
spec fn kept_as(e: int, x: i128) -> bool {
    &&& -FARTHEST <= x <= FARTHEST
    &&& e == x || (e > x && x == FARTHEST) || (e < x && x == -FARTHEST)
}

/// The number, or the bound where it is larger.
spec fn bounded(n: int, bound: int) -> int {
    if n > bound {
        bound
    } else {
        n
    }
}

/// The number that digits write, or the bound where it is larger.
fn read_bounded(s: &[char], bound: i128) -> (n: i128)
    requires
        all_digits(s@),
        1 <= bound <= FARTHEST,
    ensures
        n == bounded(number(s@) as int, bound as int),
        0 <= n <= bound,
{
    let mut n: i128 = 0;
    let mut i: usize = 0;
    while i < s.len()
        invariant
            i <= s@.len(),
            all_digits(s@),
            1 <= bound <= FARTHEST,
            n == bounded(number(s@.take(i as int)) as int, bound as int),
            0 <= n <= bound,
        decreases s@.len() - i,
    {
        proof {
            let t = s@.take(i + 1);
            assert(t.drop_last() =~= s@.take(i as int));
            assert(t.last() == s@[i as int]);
            assert(is_digit(s@[i as int]));
        }
        n = n * 10 + (s[i] as u32 - 48) as i128;
        if n > bound {
            n = bound;
        }
        i += 1;
    }
    assert(s@.take(i as int) =~= s@);
    n
}

proof fn lemma_pow10(n: nat)
    ensures
        pow10(n) >= 1,
    decreases n,
{
    if n > 0 {
        lemma_pow10((n - 1) as nat);
    }
}

/// A number other than zero with the point moved far enough is beyond the bound.
proof fn lemma_far(x: nat, a: nat, b: nat, bound: int)
    requires
        a <= b,
        x * pow10(a) >= bound,
    ensures
        x * pow10(b) >= bound,
    decreases b - a,
{
    if a < b {
        lemma_far(x, a, (b - 1) as nat, bound);
        let p = pow10((b - 1) as nat);
        assert(x * (10 * p) >= x * p) by (nonlinear_arith)
            requires
                x >= 0,
                p >= 0,
        ;
    }
}

/// Moving the point to the left drops digits.
proof fn lemma_drop_digits(d: Seq<char>, k: nat)
    requires
        all_digits(d),
    ensures
        number(d) as int / pow10(k) as int == number(
            d.take(if k <= d.len() {
                d.len() - k
            } else {
                0
            }),
        ),
    decreases k,
{
    if k == 0 {
        assert(d.take(d.len() as int) =~= d);
        assert(number(d) as int / 1 == number(d));
    } else {
        lemma_pow10((k - 1) as nat);
        let p = pow10((k - 1) as nat) as int;
        let x = number(d) as int;
        if d.len() == 0 {
            assert(d.take(0) =~= d);
            assert(0int / (10 * p) == 0) by (nonlinear_arith)
                requires
                    p >= 1,
            ;
        } else {
            let e = d.drop_last();
            assert forall|i: int| 0 <= i < e.len() implies is_digit(#[trigger] e[i]) by {
                assert(e[i] == d[i]);
            }
            assert(is_digit(d[d.len() - 1]));
            lemma_drop_digits(e, (k - 1) as nat);
            let y = number(e) as int;
            let v = digit_value(d.last());
            assert(x == y * 10 + v && 0 <= v <= 9);
            assert(x / 10 == y) by (nonlinear_arith)
                requires
                    x == y * 10 + v,
                    0 <= v <= 9,
            ;
            vstd::arithmetic::div_mod::lemma_div_denominator(x, 10, p);
            assert(x / (10 * p) == (x / 10) / p);
            if k <= d.len() {
                assert(e.take(e.len() - (k - 1)) =~= d.take(d.len() - k));
            } else {
                assert(e.take(0) =~= d.take(0));
            }
        }
    }
}

/// The digits with the point moved, or the bound where that is larger.
fn shift_digits(d: &[char], shift: i128) -> (n: i128)
    requires
        all_digits(d@),
        shift > i128::MIN,
    ensures
        n == bounded(shifted(d@, shift as int), BEYOND as int),
        0 <= n <= BEYOND,
{
    if shift < 0 {
        let k: i128 = -shift;
        let len: usize = d.len();
        let keep: usize = if k <= len as i128 {
            (len as i128 - k) as usize
        } else {
            0
        };
        let head = slice_subrange(d, 0, keep);
        proof {
            lemma_drop_digits(d@, k as nat);
            assert(head@ =~= d@.take(keep as int));
            assert forall|i: int| 0 <= i < head@.len() implies is_digit(#[trigger] head@[i]) by {
                assert(head@[i] == d@[i]);
            }
        }
        return read_bounded(head, BEYOND);
    }
    let mut n: i128 = read_bounded(d, BEYOND);
    let mut j: i128 = 0;
    let ghost x = number(d@);
    assert(x * pow10(0) == x) by (nonlinear_arith)
        requires
            pow10(0) == 1,
    ;
    while j < shift && n > 0 && n < BEYOND
        invariant
            0 <= j <= shift,
            x == number(d@),
            n == bounded((x * pow10(j as nat)) as int, BEYOND as int),
            0 <= n <= BEYOND,
        decreases shift - j,
    {
        proof {
            let p = pow10(j as nat);
            assert(pow10((j + 1) as nat) == 10 * p);
            assert(x * (10 * p) == 10 * (x * p)) by (nonlinear_arith);
        }
        n = n * 10;
        if n > BEYOND {
            n = BEYOND;
        }
        j = j + 1;
    }
    proof {
        if j < shift {
            if n == 0 {
                lemma_pow10(j as nat);
                let p = pow10(j as nat);
                assert(x == 0) by (nonlinear_arith)
                    requires
                        x * p == 0,
                        p >= 1,
                        x >= 0,
                ;
                assert(x * pow10(shift as nat) == 0) by (nonlinear_arith)
                    requires
                        x == 0,
                ;
            } else {
                lemma_far(x, j as nat, shift as nat, BEYOND as int);
            }
        }
    }
    n
}

/// Beyond twenty places the exponent no longer matters.
proof fn lemma_exponent_bounded(d: Seq<char>, a: int, b: int)
    requires
        all_digits(d),
        a == b || (20 <= a && 20 <= b) || (a < 0 && b < 0 && a + d.len() <= 0 && b + d.len() <= 0),
    ensures
        bounded(shifted(d, a), BEYOND as int) == bounded(shifted(d, b), BEYOND as int),
{
    let x = number(d);
    if a != b && a >= 20 {
        lemma_twenty();
        if x == 0 {
            assert(x * pow10(a as nat) == 0 && x * pow10(b as nat) == 0) by (nonlinear_arith)
                requires
                    x == 0,
            ;
        } else {
            let p = pow10(20);
            assert(x * p >= BEYOND) by (nonlinear_arith)
                requires
                    x >= 1,
                    p == BEYOND,
            ;
            lemma_far(x, 20, a as nat, BEYOND as int);
            lemma_far(x, 20, b as nat, BEYOND as int);
        }
    } else if a != b {
        lemma_drop_digits(d, (-a) as nat);
        lemma_drop_digits(d, (-b) as nat);
    }
}

proof fn lemma_twenty()
    ensures
        pow10(20) == BEYOND,
{
    reveal_with_fuel(pow10, 21);
}

/// The digits times ten to the power of `exponent` less `behind`, in millionths.
fn micros_of_digits(d: &[char], exponent: i128, behind: usize, Ghost(e): Ghost<int>) -> (n: i64)
    requires
        all_digits(d@),
        behind <= d@.len(),
        kept_as(e, exponent),
    ensures
        n == nearest_micros(d@, e - behind),
        0 <= n,
{
    let shift: i128 = exponent - behind as i128 + 7;
    proof {
        assert(d.len() == d@.len());
        lemma_exponent_bounded(d@, shift as int, e - behind + 7);
    }
    let s: i128 = shift_digits(d, shift);
    let n: i128 = (s + 5) / 10;
    if n > i64::MAX as i128 {
        i64::MAX
    } else {
        n as i64
    }
}

fn is_endless(s: &[char]) -> (r: bool)
    ensures
        r == endless(s@),
{
    let mut u: Vec<char> = Vec::new();
    let mut i: usize = 0;
    while i < s.len()
        invariant
            i <= s@.len(),
            u@.len() == i,
            forall|k: int| 0 <= k < i ==> #[trigger] u@[k] == capital(s@[k]),
        decreases s@.len() - i,
    {
        u.push(capital_of(s[i]));
        i += 1;
    }
    assert(u@ =~= s@.map_values(|c: char| capital(c)));
    let short = chars_of("INF");
    let long = chars_of("INFINITY");
    same_chars(u.as_slice(), short.as_slice()) || same_chars(u.as_slice(), long.as_slice())
}

fn find_exponent(s: &[char]) -> (m: usize)
    ensures
        m == exponent_mark(s@),
        m <= s@.len(),
{
    let mut i: usize = 0;
    assert(s@.skip(0) =~= s@);
    while i < s.len()
        invariant
            i <= s@.len(),
            exponent_mark(s@) == i + exponent_mark(s@.skip(i as int)),
        decreases s@.len() - i,
    {
        assert(s@.skip(i as int)[0] == s@[i as int]);
        assert(s@.skip(i as int).skip(1) =~= s@.skip(i + 1));
        if s[i] == 'e' || s[i] == 'E' {
            return i;
        }
        i += 1;
    }
    i
}

/// Reads an exponent, not beyond a bound that no number needs.
fn read_exponent(s: &[char]) -> (r: Option<i128>)
    ensures
        match r {
            Some(x) => exponent_value(s@) matches Some(e) && kept_as(e, x),
            None => exponent_value(s@) is None,
        },
{
    let signed = s.len() > 0 && (s[0] == '-' || s[0] == '+');
    let d = if signed {
        slice_subrange(s, 1, s.len())
    } else {
        s
    };
    proof {
        if signed {
            assert(d@ =~= s@.skip(1));
        }
    }
    if d.len() == 0 || !only_digits(d) {
        return None;
    }
    let n: i128 = read_bounded(d, FARTHEST);
    if signed && s[0] == '-' {
        Some(-n)
    } else {
        Some(n)
    }
}

fn read_mantissa(s: &[char]) -> (r: Option<(Vec<char>, usize)>)
    ensures
        match r {
            Some(d) => mantissa(s@) == Some((d.0@, d.1 as int)) && all_digits(d.0@) && d.1 <= d.0@.len(),
            None => mantissa(s@) is None,
        },
{
    let parts = split_char(s, '.');
    proof {
        crate::text::lemma_split_len(s@, crate::text::is_char('.'));
        assert(rows(parts@).len() == parts@.len());
        assert(rows(parts@)[0] == parts@[0]@);
    }
    if parts.len() > 2 || !only_digits(parts[0].as_slice()) {
        return None;
    }
    let mut digits = copy_chars(parts[0].as_slice());
    if parts.len() == 1 {
        return if digits.len() == 0 {
            None
        } else {
            Some((digits, 0))
        };
    }
    assert(rows(parts@)[1] == parts@[1]@);
    if !only_digits(parts[1].as_slice()) || (parts[0].len() == 0 && parts[1].len() == 0) {
        return None;
    }
    let behind: usize = parts[1].len();
    push_chars(&mut digits, parts[1].as_slice());
    proof {
        let a = parts@[0]@;
        let b = parts@[1]@;
        assert(digits@ =~= a + b);
        assert forall|i: int| 0 <= i < digits@.len() implies is_digit(#[trigger] digits@[i]) by {
            if i < a.len() {
                assert(is_digit(a[i]));
            } else {
                assert(is_digit(b[i - a.len()]));
            }
        }
    }
    Some((digits, behind))
}

fn read_unsigned(s: &[char]) -> (r: Option<i64>)
    ensures
        (match r {
            Some(n) => Some(n as int),
            None => None,
        }) == unsigned_micros(s@),
        r is Some ==> 0 <= r->0,
{
    if is_endless(s) {
        return Some(i64::MAX);
    }
    let m: usize = find_exponent(s);
    let head = slice_subrange(s, 0, m);
    assert(head@ =~= s@.take(m as int));
    match read_mantissa(head) {
        None => None,
        Some((digits, behind)) => {
            if m == s.len() {
                return Some(micros_of_digits(digits.as_slice(), 0, behind, Ghost(0)));
            }
            let tail = slice_subrange(s, m + 1, s.len());
            assert(tail@ =~= s@.skip(m + 1));
            match read_exponent(tail) {
                None => None,
                Some(x) => {
                    let ghost e = exponent_value(tail@)->0;
                    Some(micros_of_digits(digits.as_slice(), x, behind, Ghost(e)))
                },
            }
        },
    }
}

/// Reads a number in millionths: a decimal number as it is usually written, with or without
/// an exponent. What is not a number at all is not read.
pub fn parse_micros(s: &str) -> (r: Option<i64>)
    ensures
        (match r {
            Some(n) => Some(n as int),
            None => None,
        }) == decimal_micros(s@),
{
    let cs = chars_of(s);
    if cs.len() > 0 && (cs[0] == '-' || cs[0] == '+') {
        let rest = slice_subrange(cs.as_slice(), 1, cs.len());
        assert(rest@ =~= s@.skip(1));
        match read_unsigned(rest) {
            Some(n) => {
                if cs[0] == '-' {
                    Some(-n)
                } else {
                    Some(n)
                }
            },
            None => None,
        }
    } else {
        read_unsigned(cs.as_slice())
    }
}

// ---------------------------------------------------------------------------
// Definitions
// ---------------------------------------------------------------------------

/// The definition of a memory.
#[derive(Debug)]
pub struct SeedSpec {
    pub content: String,
    pub description: String,
    pub memory_type: String,
    pub importance: i64,
    pub protected: bool,
    pub tags: Vec<String>,
    /// `system_seed` or `environment_preset`.
    pub source: String,
}

/// What a definition is.
pub struct SeedView {
    pub content: Seq<char>,
    pub description: Seq<char>,
    pub memory_type: Seq<char>,
    pub importance: i64,
    pub protected: bool,
    pub tags: Seq<Seq<char>>,
    pub source: Seq<char>,
}

impl View for SeedSpec {
    type V = SeedView;

    open spec fn view(&self) -> SeedView {
        SeedView {
            content: self.content@,
            description: self.description@,
            memory_type: self.memory_type@,
            importance: self.importance,
            protected: self.protected,
            tags: texts(self.tags@),
            source: self.source@,
        }
    }
}

/// What the definitions of a list are.
pub open spec fn seed_views(v: Seq<SeedSpec>) -> Seq<SeedView> {
    v.map_values(|s: SeedSpec| s@)
}

/// A definition that is being read.
pub struct SeedSpecBuilder {
    pub content: Vec<char>,
    pub description: Option<String>,
    pub memory_type: Option<String>,
    pub importance: Option<i64>,
    pub protected: Option<bool>,
    pub tags: Vec<String>,
}

/// What is known of a definition that is being read.
pub struct BuilderView {
    pub content: Seq<char>,
    pub description: Option<Seq<char>>,
    pub memory_type: Option<Seq<char>>,
    pub importance: Option<i64>,
    pub protected: Option<bool>,
    pub tags: Seq<Seq<char>>,
}

impl View for SeedSpecBuilder {
    type V = BuilderView;

    open spec fn view(&self) -> BuilderView {
        BuilderView {
            content: self.content@,
            description: opt_text(self.description),
            memory_type: opt_text(self.memory_type),
            importance: self.importance,
            protected: self.protected,
            tags: texts(self.tags@),
        }
    }
}

/// Nothing known yet.
pub open spec fn empty_builder() -> BuilderView {
    BuilderView {
        content: Seq::empty(),
        description: None,
        memory_type: None,
        importance: None,
        protected: None,
        tags: Seq::empty(),
    }
}

/// The definition, where it has a content.
pub open spec fn built(b: BuilderView) -> Option<SeedView> {
    if b.content.len() == 0 {
        None
    } else {
        Some(
            SeedView {
                content: b.content,
                description: match b.description {
                    Some(d) => d,
                    None => Seq::empty(),
                },
                memory_type: match b.memory_type {
                    Some(t) => t,
                    None => "short_term"@,
                },
                importance: match b.importance {
                    Some(i) => i,
                    None => 500_000,
                },
                protected: match b.protected {
                    Some(p) => p,
                    None => false,
                },
                tags: b.tags,
                source: "system_seed"@,
            },
        )
    }
}

impl SeedSpecBuilder {
    /// Nothing known yet.
    pub fn new() -> (r: SeedSpecBuilder)
        ensures
            r@ == empty_builder(),
    {
        let r = SeedSpecBuilder {
            content: Vec::new(),
            description: None,
            memory_type: None,
            importance: None,
            protected: None,
            tags: Vec::new(),
        };
        assert(r@.content =~= Seq::<char>::empty());
        assert(r@.tags =~= Seq::<Seq<char>>::empty());
        r
    }

    /// The definition, where it has a content.
    pub fn build(self) -> (r: Option<SeedSpec>)
        ensures
            (match r {
                Some(s) => Some(s@),
                None => None,
            }) == built(self@),
    {
        if self.content.len() == 0 {
            return None;
        }
        let description = match self.description {
            Some(d) => d,
            None => String::new(),
        };
        let memory_type = match self.memory_type {
            Some(t) => t,
            None => "short_term".to_owned(),
        };
        let r = SeedSpec {
            content: string_of(self.content.as_slice()),
            description,
            memory_type,
            importance: match self.importance {
                Some(i) => i,
                None => 500_000,
            },
            protected: match self.protected {
                Some(p) => p,
                None => false,
            },
            tags: self.tags,
            source: "system_seed".to_owned(),
        };
        Some(r)
    }
}

/// Where in a file of definitions the reader stands.
#[derive(Debug, Clone, Copy, PartialEq, Eq, Structural)]
pub enum Phase {
    /// Before the first definition.
    Idle,
    /// Behind the rule that closed a definition.
    Closed,
    /// In its fields.
    FrontMatter,
    /// In its content.
    Content,
}

/// The reader of a file of definitions.
pub struct Reading {
    pub specs: Seq<SeedView>,
    pub builder: BuilderView,
    pub phase: Phase,
}

/// The tags of a list that commas separate.
pub open spec fn tag_list(parts: Seq<Seq<char>>) -> Seq<Seq<char>>
    decreases parts.len(),
{
    if parts.len() == 0 {
        Seq::<Seq<char>>::empty()
    } else {
        let rest = tag_list(parts.drop_last());
        let t = trim(parts.last());
        if t.len() == 0 {
            rest
        } else {
            rest.push(t)
        }
    }
}

/// A yes or a no.
pub open spec fn truth(s: Seq<char>) -> Option<bool> {
    if s == "true"@ {
        Some(true)
    } else if s == "false"@ {
        Some(false)
    } else {
        None
    }
}

/// What follows the name of a field.
pub open spec fn value_of(line: Seq<char>, name: Seq<char>) -> Seq<char> {
    trim(line.skip(name.len() as int))
}

/// The definition after a line of its fields.
pub open spec fn with_field(b: BuilderView, line: Seq<char>) -> BuilderView {
    if begins(line, "description:"@) {
        BuilderView { description: Some(value_of(line, "description:"@)), ..b }
    } else if begins(line, "type:"@) {
        BuilderView { memory_type: Some(value_of(line, "type:"@)), ..b }
    } else if begins(line, "importance:"@) {
        BuilderView {
            importance: match decimal_micros(value_of(line, "importance:"@)) {
                Some(n) => Some(n as i64),
                None => None,
            },
            ..b
        }
    } else if begins(line, "protected:"@) {
        BuilderView { protected: truth(value_of(line, "protected:"@)), ..b }
    } else if begins(line, "tags:"@) {
        BuilderView {
            tags: tag_list(split_on(line.skip("tags:"@.len() as int), ',')),
            ..b
        }
    } else {
        b
    }
}

/// The content with one more line.
pub open spec fn with_line(content: Seq<char>, line: Seq<char>) -> Seq<char> {
    if content.len() == 0 {
        line
    } else {
        content.push('\n') + line
    }
}

/// The definitions with that one, where it has a content.
pub open spec fn with_built(specs: Seq<SeedView>, b: BuilderView) -> Seq<SeedView> {
    match built(b) {
        Some(s) => specs.push(s),
        None => specs,
    }
}

/// A line that gives a field of a definition.
pub open spec fn names_field(line: Seq<char>) -> bool {
    begins(line, "description:"@) || begins(line, "type:"@) || begins(line, "importance:"@) || begins(
        line,
        "protected:"@,
    ) || begins(line, "tags:"@)
}

/// The reader after one more line. Comments are skipped; a line of three dashes leads
/// from one phase to the next. The dashes that close a definition may also open the next,
/// whose fields follow them at once.
pub open spec fn read_line(r: Reading, raw: Seq<char>) -> Reading {
    let line = trim(raw);
    if line.len() > 0 && line[0] == '#' {
        r
    } else {
        match r.phase {
            Phase::Idle => if line == "---"@ {
                Reading { builder: empty_builder(), phase: Phase::FrontMatter, ..r }
            } else {
                r
            },
            Phase::Closed => if line == "---"@ {
                Reading { builder: empty_builder(), phase: Phase::FrontMatter, ..r }
            } else if names_field(line) {
                Reading {
                    builder: with_field(empty_builder(), line),
                    phase: Phase::FrontMatter,
                    ..r
                }
            } else {
                r
            },
            Phase::FrontMatter => if line == "---"@ {
                Reading { phase: Phase::Content, ..r }
            } else {
                Reading { builder: with_field(r.builder, line), ..r }
            },
            Phase::Content => if line == "---"@ {
                Reading {
                    specs: with_built(r.specs, r.builder),
                    builder: empty_builder(),
                    phase: Phase::Closed,
                }
            } else if line.len() > 0 {
                Reading {
                    builder: BuilderView { content: with_line(r.builder.content, line), ..r.builder },
                    ..r
                }
            } else {
                r
            },
        }
    }
}

/// The reader after those lines.
pub open spec fn read_lines(list: Seq<Seq<char>>) -> Reading
    decreases list.len(),
{
    if list.len() == 0 {
        Reading { specs: Seq::empty(), builder: empty_builder(), phase: Phase::Idle }
    } else {
        read_line(read_lines(list.drop_last()), list.last())
    }
}

/// The definitions of a file; the last may lack its closing dashes.
pub open spec fn specs_in(raw: Seq<char>) -> Seq<SeedView> {
    let r = read_lines(lines(raw));
    if r.phase == Phase::Content {
        with_built(r.specs, r.builder)
    } else {
        r.specs
    }
}

fn value_text(line: &[char], name: &[char]) -> (r: String)
    requires
        begins(line@, name@),
    ensures
        r@ == value_of(line@, name@),
{
    let rest = slice_subrange(line, name.len(), line.len());
    assert(rest@ =~= line@.skip(name@.len() as int));
    string_of(trim_chars(rest))
}

fn read_tags(line: &[char], name: &[char]) -> (out: Vec<String>)
    requires
        begins(line@, name@),
    ensures
        texts(out@) == tag_list(split_on(line@.skip(name@.len() as int), ',')),
{
    let rest = slice_subrange(line, name.len(), line.len());
    assert(rest@ =~= line@.skip(name@.len() as int));
    let parts = split_char(rest, ',');
    let ghost all = rows(parts@);
    let mut out: Vec<String> = Vec::new();
    let mut i: usize = 0;
    assert(texts(out@) =~= tag_list(all.take(0)));
    while i < parts.len()
        invariant
            i <= parts@.len(),
            all == rows(parts@),
            texts(out@) == tag_list(all.take(i as int)),
        decreases parts@.len() - i,
    {
        proof {
            assert(all.take(i + 1).drop_last() =~= all.take(i as int));
            assert(all.take(i + 1).last() == parts@[i as int]@);
        }
        let t = trim_chars(parts[i].as_slice());
        if t.len() > 0 {
            let ghost prev = texts(out@);
            let ghost text = t@;
            out.push(string_of(t));
            assert(texts(out@) =~= prev.push(text));
        }
        i += 1;
    }
    assert(all.take(i as int) =~= all);
    out
}

fn read_truth(s: &str) -> (r: Option<bool>)
    ensures
        r == truth(s@),
{
    if same(s, "true") {
        Some(true)
    } else if same(s, "false") {
        Some(false)
    } else {
        None
    }
}

fn read_field(b: &mut SeedSpecBuilder, line: &[char])
    ensures
        final(b)@ == with_field(old(b)@, line@),
{
    let description = chars_of("description:");
    let kind = chars_of("type:");
    let importance = chars_of("importance:");
    let protected = chars_of("protected:");
    let tags = chars_of("tags:");
    if starts_with_chars(line, description.as_slice()) {
        b.description = Some(value_text(line, description.as_slice()));
    } else if starts_with_chars(line, kind.as_slice()) {
        b.memory_type = Some(value_text(line, kind.as_slice()));
    } else if starts_with_chars(line, importance.as_slice()) {
        let v = value_text(line, importance.as_slice());
        b.importance = parse_micros(v.as_str());
    } else if starts_with_chars(line, protected.as_slice()) {
        let v = value_text(line, protected.as_slice());
        b.protected = read_truth(v.as_str());
    } else if starts_with_chars(line, tags.as_slice()) {
        b.tags = read_tags(line, tags.as_slice());
    }
}

fn is_field(line: &[char]) -> (r: bool)
    ensures
        r == names_field(line@),
{
    let description = chars_of("description:");
    let kind = chars_of("type:");
    let importance = chars_of("importance:");
    let protected = chars_of("protected:");
    let tags = chars_of("tags:");
    starts_with_chars(line, description.as_slice()) || starts_with_chars(line, kind.as_slice())
        || starts_with_chars(line, importance.as_slice()) || starts_with_chars(line, protected.as_slice())
        || starts_with_chars(line, tags.as_slice())
}

fn finish(specs: &mut Vec<SeedSpec>, b: SeedSpecBuilder)
    ensures
        seed_views(final(specs)@) == with_built(seed_views(old(specs)@), b@),
{
    let ghost prev = seed_views(specs@);
    if let Some(s) = b.build() {
        let ghost sv = s@;
        specs.push(s);
        assert(seed_views(specs@) =~= prev.push(sv));
    }
}

/// Reads the definitions of a file.
pub fn parse_specs(raw: &str) -> (out: Vec<SeedSpec>)
    ensures
        seed_views(out@) == specs_in(raw@),
{
    let cs = chars_of(raw);
    let list = split_lines(cs.as_slice());
    let dashes = chars_of("---");
    let ghost all = rows(list@);
    let mut specs: Vec<SeedSpec> = Vec::new();
    let mut builder = SeedSpecBuilder::new();
    let mut phase = Phase::Idle;
    let mut i: usize = 0;
    assert(seed_views(specs@) =~= read_lines(all.take(0)).specs);
    while i < list.len()
        invariant
            i <= list@.len(),
            all == rows(list@),
            dashes@ == "---"@,
            seed_views(specs@) == read_lines(all.take(i as int)).specs,
            builder@ == read_lines(all.take(i as int)).builder,
            phase == read_lines(all.take(i as int)).phase,
        decreases list@.len() - i,
    {
        proof {
            assert(all.take(i + 1).drop_last() =~= all.take(i as int));
            assert(all.take(i + 1).last() == list@[i as int]@);
        }
        let line = trim_chars(list[i].as_slice());
        if !(line.len() > 0 && line[0] == '#') {
            let rule = same_chars(line, dashes.as_slice());
            match phase {
                Phase::Idle => {
                    if rule {
                        builder = SeedSpecBuilder::new();
                        phase = Phase::FrontMatter;
                    }
                },
                Phase::Closed => {
                    if rule {
                        builder = SeedSpecBuilder::new();
                        phase = Phase::FrontMatter;
                    } else if is_field(line) {
                        builder = SeedSpecBuilder::new();
                        read_field(&mut builder, line);
                        phase = Phase::FrontMatter;
                    }
                },
                Phase::FrontMatter => {
                    if rule {
                        phase = Phase::Content;
                    } else {
                        read_field(&mut builder, line);
                    }
                },
                Phase::Content => {
                    if rule {
                        finish(&mut specs, builder);
                        builder = SeedSpecBuilder::new();
                        phase = Phase::Closed;
                    } else if line.len() > 0 {
                        let ghost before = builder@;
                        if builder.content.len() > 0 {
                            builder.content.push('\n');
                        }
                        push_chars(&mut builder.content, line);
                        assert(builder@.content =~= with_line(before.content, line@));
                    }
                },
            }
        }
        i += 1;
    }
    assert(all.take(i as int) =~= all);
    if phase == Phase::Content {
        finish(&mut specs, builder);
    }
    specs
}

/// Reads the definitions of the surroundings: their source says so.
pub fn parse_environment_presets(raw: &str) -> (out: Vec<SeedSpec>)
    ensures
        seed_views(out@) == specs_in(raw@).map_values(
            |s: SeedView| SeedView { source: "environment_preset"@, ..s },
        ),
{
    let list = parse_specs(raw);
    let ghost all = seed_views(list@);
    let mut out: Vec<SeedSpec> = Vec::new();
    let mut i: usize = 0;
    while i < list.len()
        invariant
            i <= list@.len(),
            all == seed_views(list@),
            out@.len() == i,
            forall|k: int|
                0 <= k < i ==> (#[trigger] out@[k])@ == (SeedView {
                    source: "environment_preset"@,
                    ..all[k]
                }),
        decreases list@.len() - i,
    {
        let s = &list[i];
        assert(all[i as int] == s@);
        out.push(
            SeedSpec {
                content: s.content.clone(),
                description: s.description.clone(),
                memory_type: s.memory_type.clone(),
                importance: s.importance,
                protected: s.protected,
                tags: copy_strings(&s.tags),
                source: "environment_preset".to_owned(),
            },
        );
        i += 1;
    }
    assert(seed_views(out@) =~= specs_in(raw@).map_values(
        |s: SeedView| SeedView { source: "environment_preset"@, ..s },
    ));
    out
}

// ---------------------------------------------------------------------------
// The memories of the definitions
// ---------------------------------------------------------------------------

/// The metadata of a memory from a definition.
pub open spec fn seed_metadata(s: SeedView, char_id: Seq<char>, chunk: int, total: int) -> Map<
    Seq<char>,
    MetaView,
> {
    let base = Map::<Seq<char>, MetaView>::empty().insert("source"@, MetaView::Text(s.source)).insert(
        "role"@,
        MetaView::Text("assistant"@),
    ).insert("memory_type"@, MetaView::Text(s.memory_type));
    let crossed = if s.tags.contains("cross_character"@) {
        base.insert("channel"@, MetaView::Text("cross_character"@)).insert(
            "speaker"@,
            MetaView::Text(char_id),
        ).insert(
            "listener"@,
            MetaView::Text(
                if char_id == "vivian"@ {
                    "nana"@
                } else {
                    "vivian"@
                },
            ),
        ).insert("perspective"@, MetaView::Text("speaker"@))
    } else {
        base
    };
    if total > 1 {
        crossed.insert("seed_chunk"@, MetaView::Bool(true)).insert(
            "chunk_index"@,
            MetaView::Int(chunk as i64),
        ).insert("chunk_total"@, MetaView::Int(total as i64))
    } else {
        crossed
    }
}

/// The identifier of a memory from a definition: its first eight random characters.
pub open spec fn seed_id(random: Seq<char>) -> Seq<char> {
    "seed_"@ + first_chars(random, 8)
}

/// A memory from a chunk of a definition.
pub open spec fn seed_item(
    s: SeedView,
    char_id: Seq<char>,
    id: Seq<char>,
    text: Seq<char>,
    chunk: int,
    total: int,
    time: i64,
) -> ItemView {
    ItemView {
        id,
        content: text,
        granularity: Granularity::Summary.name(),
        memory_type: s.memory_type,
        importance: s.importance,
        timestamp: time,
        embedding: None,
        tags: s.tags,
        metadata: seed_metadata(s, char_id, chunk, total),
        related_ids: Seq::empty(),
        description: Some(s.description),
        visit_count: 0,
        last_visit_at: 0,
        heat_score: 0,
        open_hooks: Seq::empty(),
        reinforcement: 0,
        disputation: 0,
        rein_last_signal_at: 0,
        disp_last_signal_at: 0,
        sub_zero_days: 0,
        sub_zero_last_increment_date: Seq::empty(),
        user_fact_reinforce_count: 0,
        protected: s.protected,
        episode_id: None,
        rebuttal_grace_remaining: 0,
        consolidated: false,
    }
}

/// The memory from a chunk of a definition, with an identifier made of `random`.
pub fn make_seed_item(
    s: &SeedSpec,
    char_id: &str,
    random: &str,
    text: &str,
    chunk: usize,
    total: usize,
    time: i64,
) -> (m: MemoryItem)
    requires
        chunk <= total <= i64::MAX,
    ensures
        m@ == seed_item(s@, char_id@, seed_id(random@), text@, chunk as int, total as int, time),
{
    let mut metadata = Metadata::new();
    metadata.insert("source", MetaValue::Text(s.source.clone()));
    metadata.insert("role", MetaValue::Text("assistant".to_owned()));
    metadata.insert("memory_type", MetaValue::Text(s.memory_type.clone()));
    if list_has(&s.tags, "cross_character") {
        let listener: String = if same(char_id, "vivian") {
            "nana".to_owned()
        } else {
            "vivian".to_owned()
        };
        metadata.insert("channel", MetaValue::Text("cross_character".to_owned()));
        metadata.insert("speaker", MetaValue::Text(char_id.to_owned()));
        metadata.insert("listener", MetaValue::Text(listener));
        metadata.insert("perspective", MetaValue::Text("speaker".to_owned()));
    }
    if total > 1 {
        metadata.insert("seed_chunk", MetaValue::Bool(true));
        metadata.insert("chunk_index", MetaValue::Int(chunk as i64));
        metadata.insert("chunk_total", MetaValue::Int(total as i64));
    }
    let mut id: String = "seed_".to_owned();
    let head = head_of(random, 8);
    id.append(head.as_str());
    let m = MemoryItem {
        id,
        content: text.to_owned(),
        granularity: Granularity::Summary.as_str().to_owned(),
        memory_type: s.memory_type.clone(),
        importance: s.importance,
        timestamp: time,
        embedding: None,
        tags: copy_strings(&s.tags),
        metadata,
        related_ids: Vec::new(),
        description: Some(s.description.clone()),
        visit_count: 0,
        last_visit_at: 0,
        heat_score: 0,
        open_hooks: Vec::new(),
        reinforcement: 0,
        disputation: 0,
        rein_last_signal_at: 0,
        disp_last_signal_at: 0,
        sub_zero_days: 0,
        sub_zero_last_increment_date: String::new(),
        user_fact_reinforce_count: 0,
        protected: s.protected,
        episode_id: None,
        rebuttal_grace_remaining: 0,
        consolidated: false,
    };
    assert(m@.related_ids =~= Seq::<Seq<char>>::empty());
    assert(m@.open_hooks =~= Seq::<HookView>::empty());
    m
}

/// The memories of one definition without their identifiers, by chunk.
pub open spec fn items_of_spec(s: SeedView, char_id: Seq<char>, time: i64) -> Seq<ItemView> {
    let c = chunks_of(s.content, SEED_CHUNK_MAX_CHARS as int);
    Seq::new(
        c.len(),
        |k: int| seed_item(s, char_id, Seq::empty(), c[k], k, c.len() as int, time),
    )
}

/// When the memory of the `i`-th of `total` definitions was made: a minute apart, the
/// last now.
pub open spec fn seed_time(now: i64, i: int, total: int) -> i64 {
    (now - (total - 1 - i) * 60_000) as i64
}

/// The memories of the first `n` definitions without their identifiers.
pub open spec fn items_of_specs(s: Seq<SeedView>, char_id: Seq<char>, now: i64, n: nat) -> Seq<ItemView>
    decreases n,
{
    if n == 0 {
        Seq::<ItemView>::empty()
    } else {
        items_of_specs(s, char_id, now, (n - 1) as nat) + items_of_spec(
            s[n - 1],
            char_id,
            seed_time(now, n - 1, s.len() as int),
        )
    }
}

/// The memory but for its identifier, which is that of a definition.
pub open spec fn is_seed_like(m: ItemView, plan: ItemView) -> bool {
    m == (ItemView { id: m.id, ..plan }) && begins(m.id, "seed_"@)
}

/// The memories of the definitions, with random identifiers.
pub fn seed_memories(specs: &Vec<SeedSpec>, char_id: &str, now: i64) -> (out: Vec<MemoryItem>)
    requires
        0 <= now,
        specs@.len() <= 1_000_000_000,
        forall|k: int| 0 <= k < specs@.len() ==> (#[trigger] specs@[k]).content@.len() <= i64::MAX,
    ensures
        out@.len() == items_of_specs(seed_views(specs@), char_id@, now, specs@.len()).len(),
        forall|k: int|
            0 <= k < out@.len() ==> is_seed_like(
                (#[trigger] out@[k])@,
                items_of_specs(seed_views(specs@), char_id@, now, specs@.len())[k],
            ),
{
    let ghost all = seed_views(specs@);
    let mut out: Vec<MemoryItem> = Vec::new();
    let n: usize = specs.len();
    let mut i: usize = 0;
    while i < n
        invariant
            i <= n,
            n == specs@.len(),
            n <= 1_000_000_000,
            0 <= now,
            all == seed_views(specs@),
            forall|k: int| 0 <= k < specs@.len() ==> (#[trigger] specs@[k]).content@.len() <= i64::MAX,
            out@.len() == items_of_specs(all, char_id@, now, i as nat).len(),
            forall|k: int|
                0 <= k < out@.len() ==> is_seed_like(
                    (#[trigger] out@[k])@,
                    items_of_specs(all, char_id@, now, i as nat)[k],
                ),
        decreases n - i,
    {
        let s = &specs[i];
        assert(all[i as int] == s@);
        let time: i64 = now - ((n - 1 - i) as i64) * 60_000;
        let chunks = chunk_seed_content(s.content.as_str(), SEED_CHUNK_MAX_CHARS);
        let ghost before = items_of_specs(all, char_id@, now, i as nat);
        let ghost mine = items_of_spec(s@, char_id@, time);
        let ghost start = out@;
        let total: usize = chunks.len();
        let mut k: usize = 0;
        proof {
            assert(texts(chunks@).len() == chunks@.len());
            chunks_are_the_content(s@.content, SEED_CHUNK_MAX_CHARS as int);
            lemma_parts_len(texts(chunks@));
        }
        while k < total
            invariant
                k <= total,
                total == chunks@.len(),
                total <= i64::MAX,
                texts(chunks@) == chunks_of(s@.content, SEED_CHUNK_MAX_CHARS as int),
                mine == items_of_spec(s@, char_id@, time),
                mine.len() == total,
                out@.len() == start.len() + k,
                forall|j: int| 0 <= j < start.len() ==> #[trigger] out@[j] == start[j],
                forall|j: int|
                    0 <= j < k ==> is_seed_like((#[trigger] out@[start.len() + j])@, mine[j]),
            decreases total - k,
        {
            let u = random_uuid();
            let m = make_seed_item(s, char_id, u.as_str(), chunks[k].as_str(), k, total, time);
            proof {
                assert(texts(chunks@)[k as int] == chunks@[k as int]@);
                assert(m@ == (ItemView { id: m@.id, ..mine[k as int] }));
                assert(m@.id.take("seed_"@.len() as int) =~= "seed_"@);
            }
            let ghost prev = out@;
            out.push(m);
            proof {
                assert forall|j: int| 0 <= j < k + 1 implies is_seed_like(
                    (#[trigger] out@[start.len() + j])@,
                    mine[j],
                ) by {
                    if j < k {
                        assert(out@[start.len() + j] == prev[start.len() + j]);
                    }
                }
            }
            k += 1;
        }
        proof {
            let after = items_of_specs(all, char_id@, now, (i + 1) as nat);
            assert(after =~= before + mine);
            assert forall|j: int| 0 <= j < out@.len() implies is_seed_like(
                (#[trigger] out@[j])@,
                after[j],
            ) by {
                if j < start.len() {
                    assert(out@[j] == start[j]);
                    assert(after[j] == before[j]);
                } else {
                    let d = j - start.len();
                    assert(out@[start.len() + d] == out@[j]);
                    assert(after[j] == mine[d]);
                }
            }
        }
        i += 1;
    }
    out
}

} // verus!
