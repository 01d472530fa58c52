//! Text as sequences of characters: trimming, searching, splitting, joining
//! and writing numbers, each with its meaning over `Seq<char>`.

use vstd::prelude::*;
use vstd::slice::*;
use vstd::string::*;

verus! {

// ---------------------------------------------------------------------------
// Outside functions of the standard library
// ---------------------------------------------------------------------------

/// What `str::to_lowercase` returns for a text.
pub uninterp spec fn lowercase(s: Seq<char>) -> Seq<char>;

/// What `char::is_alphanumeric` returns for a character.
pub uninterp spec fn alphanumeric(c: char) -> bool;

/// `str::to_lowercase`: the result is a function of the text alone. The Unicode
/// case tables behind it are not spelled out; what is stated is that a text of
/// ASCII characters without capital letters is its own lower case.
pub assume_specification[ str::to_lowercase ](s: &str) -> (r: String)
    ensures
        r@ == lowercase(s@),
        is_plain_lower(s@) ==> r@ == s@,
;

/// `char::is_alphanumeric`: the result is a function of the character alone.
pub assume_specification[ char::is_alphanumeric ](c: char) -> (r: bool)
    ensures
        r == alphanumeric(c),
;

/// `String::push` appends one character.
pub assume_specification[ String::push ](s: &mut String, c: char)
    ensures
        final(s)@ == old(s)@.push(c),
;

/// Every character is ASCII and none is a capital letter.
pub open spec fn is_plain_lower(s: Seq<char>) -> bool {
    forall|i: int| 0 <= i < s.len() ==> (#[trigger] s[i] as u32) < 128 && !(65 <= s[i] as u32 <= 90)
}

// ---------------------------------------------------------------------------
// Meaning
// ---------------------------------------------------------------------------

/// Unicode white space.
pub open spec fn is_white(c: char) -> bool {
    let n = c as u32;
    ||| 9 <= n <= 13
    ||| n == 32
    ||| n == 0x85
    ||| n == 0xA0
    ||| n == 0x1680
    ||| 0x2000 <= n <= 0x200A
    ||| n == 0x2028
    ||| n == 0x2029
    ||| n == 0x202F
    ||| n == 0x205F
    ||| n == 0x3000
}

/// `s` without its leading white space.
pub open spec fn trim_start(s: Seq<char>) -> Seq<char>
    decreases s.len(),
{
    if s.len() > 0 && is_white(s[0]) {
        trim_start(s.skip(1))
    } else {
        s
    }
}

/// `s` without its trailing white space.
pub open spec fn trim_end(s: Seq<char>) -> Seq<char>
    decreases s.len(),
{
    if s.len() > 0 && is_white(s.last()) {
        trim_end(s.drop_last())
    } else {
        s
    }
}

/// `s` without white space at either end.
pub open spec fn trim(s: Seq<char>) -> Seq<char> {
    trim_end(trim_start(s))
}

/// `s` consists of white space only.
pub open spec fn is_blank(s: Seq<char>) -> bool {
    trim(s).len() == 0
}

/// `needle` stands in `hay` at position `i`.
pub open spec fn occurs_at(hay: Seq<char>, needle: Seq<char>, i: int) -> bool {
    0 <= i && i + needle.len() <= hay.len() && hay.subrange(i, i + needle.len()) == needle
}

/// `needle` stands somewhere in `hay`.
pub open spec fn has_sub(hay: Seq<char>, needle: Seq<char>) -> bool {
    exists|i: int| occurs_at(hay, needle, i)
}

/// Some text of `needles` stands in `hay`.
pub open spec fn has_any(hay: Seq<char>, needles: Seq<Seq<char>>) -> bool {
    exists|k: int| 0 <= k < needles.len() && has_sub(hay, #[trigger] needles[k])
}

/// `s` begins with `p`.
pub open spec fn begins(s: Seq<char>, p: Seq<char>) -> bool {
    p.len() <= s.len() && s.take(p.len() as int) == p
}

/// `s` ends with `p`.
pub open spec fn ends(s: Seq<char>, p: Seq<char>) -> bool {
    p.len() <= s.len() && s.skip(s.len() - p.len()) == p
}

/// The pieces of `s` between the characters that satisfy `sep`; one piece more
/// than there are separators.
pub open spec fn split_where(s: Seq<char>, sep: spec_fn(char) -> bool) -> Seq<Seq<char>>
    decreases s.len(),
{
    if s.len() == 0 {
        seq![Seq::<char>::empty()]
    } else {
        let p = split_where(s.drop_last(), sep);
        if sep(s.last()) {
            p.push(Seq::<char>::empty())
        } else {
            p.drop_last().push(p.last().push(s.last()))
        }
    }
}

/// The pieces of `s` between the occurrences of `c`.
pub open spec fn split_on(s: Seq<char>, c: char) -> Seq<Seq<char>> {
    split_where(s, is_char(c))
}

/// The test for one character.
pub open spec fn is_char(c: char) -> spec_fn(char) -> bool {
    |x: char| x == c
}

/// The pieces that are not empty, in order.
pub open spec fn non_empty(parts: Seq<Seq<char>>) -> Seq<Seq<char>>
    decreases parts.len(),
{
    if parts.len() == 0 {
        Seq::<Seq<char>>::empty()
    } else if parts.last().len() == 0 {
        non_empty(parts.drop_last())
    } else {
        non_empty(parts.drop_last()).push(parts.last())
    }
}

/// The words of `s`: its maximal runs without white space.
pub open spec fn words(s: Seq<char>) -> Seq<Seq<char>> {
    non_empty(split_where(s, |c: char| is_white(c)))
}

/// `s` without one carriage return at its end.
pub open spec fn strip_cr(s: Seq<char>) -> Seq<char> {
    if s.len() > 0 && s.last() == '\r' {
        s.drop_last()
    } else {
        s
    }
}

/// The lines of `s`: the pieces that a line feed ends, each without the carriage
/// return before it, and what follows the last line feed unless that is empty.
pub open spec fn lines(s: Seq<char>) -> Seq<Seq<char>> {
    let p = split_on(s, '\n');
    let ended = p.drop_last().map_values(|x: Seq<char>| strip_cr(x));
    if p.last().len() == 0 {
        ended
    } else {
        ended.push(p.last())
    }
}

/// The parts one after the other with `sep` between them.
pub open spec fn join(parts: Seq<Seq<char>>, sep: Seq<char>) -> Seq<char>
    decreases parts.len(),
{
    if parts.len() == 0 {
        Seq::<char>::empty()
    } else if parts.len() == 1 {
        parts[0]
    } else {
        join(parts.drop_last(), sep) + sep + parts.last()
    }
}

/// The first position where `needle` stands in `s`.
pub open spec fn find(s: Seq<char>, needle: Seq<char>) -> Option<int>
    decreases s.len(),
{
    if begins(s, needle) {
        Some(0)
    } else if s.len() == 0 {
        None
    } else {
        match find(s.skip(1), needle) {
            Some(i) => Some(i + 1),
            None => None,
        }
    }
}

/// The pieces of `s` between the occurrences of `sep`, found from the left.
pub open spec fn split_str(s: Seq<char>, sep: Seq<char>) -> Seq<Seq<char>>
    decreases s.len(),
{
    match find(s, sep) {
        Some(i) => if 0 <= i && sep.len() > 0 && i + sep.len() <= s.len() {
            seq![s.take(i)] + split_str(s.skip(i + sep.len()), sep)
        } else {
            seq![s]
        },
        None => seq![s],
    }
}

/// The first line of `s`; empty where there is none.
pub open spec fn first_line(s: Seq<char>) -> Seq<char> {
    if lines(s).len() == 0 {
        Seq::<char>::empty()
    } else {
        lines(s)[0]
    }
}

/// The first `n` characters, or all of them.
pub open spec fn first_chars(s: Seq<char>, n: int) -> Seq<char> {
    if s.len() <= n {
        s
    } else {
        s.take(n)
    }
}

/// The last `n` characters, or all of them.
pub open spec fn last_chars(s: Seq<char>, n: int) -> Seq<char> {
    if s.len() <= n {
        s
    } else {
        s.skip(s.len() - n)
    }
}

/// The digit that stands for `d` in a base up to sixteen.
pub open spec fn digit(d: int) -> char {
    seq!['0', '1', '2', '3', '4', '5', '6', '7', '8', '9', 'a', 'b', 'c', 'd', 'e', 'f'][d]
}

/// `n` in decimal.
pub open spec fn decimal(n: nat) -> Seq<char>
    decreases n,
{
    if n < 10 {
        seq![digit(n as int)]
    } else {
        decimal(n / 10).push(digit((n % 10) as int))
    }
}

/// The last `width` hexadecimal digits of `n`.
pub open spec fn hex(n: nat, width: nat) -> Seq<char>
    decreases width,
{
    if width == 0 {
        Seq::<char>::empty()
    } else {
        hex(n / 16, (width - 1) as nat).push(digit((n % 16) as int))
    }
}

/// `c` with an ASCII small letter made capital.
pub open spec fn capital(c: char) -> char {
    if 97 <= c as u32 <= 122 {
        seq![
            'A', 'B', 'C', 'D', 'E', 'F', 'G', 'H', 'I', 'J', 'K', 'L', 'M', 'N', 'O', 'P', 'Q',
            'R', 'S', 'T', 'U', 'V', 'W', 'X', 'Y', 'Z',
        ][c as u32 - 97]
    } else {
        c
    }
}

/// An ASCII digit.
pub open spec fn is_digit(c: char) -> bool {
    48 <= c as u32 <= 57
}

/// The number of bytes of `s` in UTF-8.
pub open spec fn byte_len(s: Seq<char>) -> nat {
    vstd::utf8::encode_utf8(s).len()
}

/// The texts of a sequence of strings.
pub open spec fn texts(v: Seq<String>) -> Seq<Seq<char>> {
    v.map_values(|s: String| s@)
}

/// The texts of a sequence of character vectors.
pub open spec fn rows(v: Seq<Vec<char>>) -> Seq<Seq<char>> {
    v.map_values(|s: Vec<char>| s@)
}

/// The texts of a sequence of string slices.
pub open spec fn strs(v: Seq<&str>) -> Seq<Seq<char>> {
    v.map_values(|s: &str| s@)
}

/// The text of an optional string.
pub open spec fn opt_text(o: Option<String>) -> Option<Seq<char>> {
    match o {
        Some(s) => Some(s@),
        None => None,
    }
}

// ---------------------------------------------------------------------------
// Facts
// ---------------------------------------------------------------------------

pub proof fn lemma_split_len(s: Seq<char>, sep: spec_fn(char) -> bool)
    ensures
        split_where(s, sep).len() >= 1,
    decreases s.len(),
{
    if s.len() > 0 {
        lemma_split_len(s.drop_last(), sep);
    }
}

pub proof fn lemma_trim_start(s: Seq<char>)
    ensures
        trim_start(s).len() <= s.len(),
        trim_start(s) == s.skip(s.len() - trim_start(s).len()),
        trim_start(s).len() > 0 ==> !is_white(trim_start(s)[0]),
        forall|i: int| 0 <= i < s.len() - trim_start(s).len() ==> is_white(#[trigger] s[i]),
    decreases s.len(),
{
    if s.len() > 0 && is_white(s[0]) {
        lemma_trim_start(s.skip(1));
        let n = s.len() - trim_start(s).len();
        assert(s.skip(1).skip(n - 1) =~= s.skip(n));
        assert forall|i: int| 0 <= i < n implies is_white(#[trigger] s[i]) by {
            if i > 0 {
                assert(s.skip(1)[i - 1] == s[i]);
            }
        }
    } else {
        assert(s.skip(0) =~= s);
    }
}

pub proof fn lemma_trim_end(s: Seq<char>)
    ensures
        trim_end(s).len() <= s.len(),
        trim_end(s) == s.take(trim_end(s).len() as int),
        trim_end(s).len() > 0 ==> !is_white(trim_end(s).last()),
        forall|i: int| trim_end(s).len() <= i < s.len() ==> is_white(#[trigger] s[i]),
    decreases s.len(),
{
    if s.len() > 0 && is_white(s.last()) {
        lemma_trim_end(s.drop_last());
        let n = trim_end(s).len() as int;
        assert(s.drop_last().take(n) =~= s.take(n));
        assert forall|i: int| n <= i < s.len() implies is_white(#[trigger] s[i]) by {
            if i < s.len() - 1 {
                assert(s.drop_last()[i] == s[i]);
            }
        }
    } else {
        assert(s.take(s.len() as int) =~= s);
    }
}

/// A trimmed text is no longer than the text, and trimming it again changes nothing.
pub proof fn lemma_trim(s: Seq<char>)
    ensures
        trim(s).len() <= s.len(),
        trim(trim(s)) == trim(s),
        trim(s).len() > 0 ==> !is_white(trim(s)[0]) && !is_white(trim(s).last()),
{
    let a = trim_start(s);
    lemma_trim_start(s);
    lemma_trim_end(a);
    let t = trim(s);
    if t.len() > 0 {
        assert(t[0] == a[0]);
    }
    assert(trim_start(t) == t);
    assert(trim_end(t) == t);
}

/// A text that neither begins nor ends with white space is its own trimming.
pub proof fn lemma_trimmed(s: Seq<char>)
    requires
        s.len() > 0 ==> !is_white(s[0]) && !is_white(s.last()),
    ensures
        trim(s) == s,
{
}

/// The bytes of two texts one after the other.
pub proof fn encode_concat(a: Seq<char>, b: Seq<char>)
    ensures
        vstd::utf8::encode_utf8(a + b) == vstd::utf8::encode_utf8(a) + vstd::utf8::encode_utf8(b),
    decreases a.len(),
{
    if a.len() == 0 {
        assert(a + b =~= b);
        assert(vstd::utf8::encode_utf8(a) + vstd::utf8::encode_utf8(b) =~= vstd::utf8::encode_utf8(
            b,
        ));
    } else {
        assert((a + b).drop_first() =~= a.drop_first() + b);
        encode_concat(a.drop_first(), b);
        assert(vstd::utf8::encode_utf8(a + b) =~= vstd::utf8::encode_utf8(a)
            + vstd::utf8::encode_utf8(b));
    }
}

/// `find` gives the least position.
pub proof fn lemma_find(s: Seq<char>, needle: Seq<char>)
    ensures
        match find(s, needle) {
            Some(i) => occurs_at(s, needle, i) && forall|j: int|
                0 <= j < i ==> !#[trigger] occurs_at(s, needle, j),
            None => forall|j: int| !#[trigger] occurs_at(s, needle, j),
        },
    decreases s.len(),
{
    if begins(s, needle) {
        assert(s.subrange(0, needle.len() as int) =~= s.take(needle.len() as int));
    } else {
        if needle.len() <= s.len() {
            assert(s.subrange(0, needle.len() as int) =~= s.take(needle.len() as int));
        }
        if s.len() > 0 {
            lemma_find(s.skip(1), needle);
            assert forall|j: int| 1 <= j implies #[trigger] occurs_at(s, needle, j) == occurs_at(
                s.skip(1),
                needle,
                j - 1,
            ) by {
                if j + needle.len() <= s.len() {
                    assert(s.subrange(j, j + needle.len()) =~= s.skip(1).subrange(
                        j - 1,
                        j - 1 + needle.len(),
                    ));
                }
            }
            match find(s.skip(1), needle) {
                Some(i) => {
                    assert(occurs_at(s.skip(1), needle, i));
                    assert(occurs_at(s, needle, i + 1));
                    assert forall|j: int| 0 <= j < i + 1 implies !#[trigger] occurs_at(
                        s,
                        needle,
                        j,
                    ) by {
                        if j > 0 {
                            assert(!occurs_at(s.skip(1), needle, j - 1));
                        }
                    }
                },
                None => {
                    assert forall|j: int| !#[trigger] occurs_at(s, needle, j) by {
                        if j > 0 {
                            assert(!occurs_at(s.skip(1), needle, j - 1));
                        }
                    }
                },
            }
        }
    }
}

// ---------------------------------------------------------------------------
// Conversions
// ---------------------------------------------------------------------------

/// The characters of `s`, in order.
pub fn chars_of(s: &str) -> (out: Vec<char>)
    ensures
        out@ == s@,
{
    let mut out: Vec<char> = Vec::new();
    for c in it: s.chars()
        invariant
            it.seq() == s@,
            out@ == s@.take(it.index@),
    {
        out.push(c);
        assert(s@.take(it.index@ + 1) =~= s@.take(it.index@).push(c));
    }
    assert(s@.take(s@.len() as int) =~= s@);
    out
}

/// The string made of `cs`.
pub fn string_of(cs: &[char]) -> (out: String)
    ensures
        out@ == cs@,
{
    let mut out: String = String::new();
    let mut i: usize = 0;
    while i < cs.len()
        invariant
            i <= cs@.len(),
            out@ == cs@.take(i as int),
        decreases cs@.len() - i,
    {
        out.push(cs[i]);
        i += 1;
        assert(cs@.take(i as int) =~= cs@.take(i - 1).push(cs@[i - 1]));
    }
    assert(cs@.take(i as int) =~= cs@);
    out
}

/// A copy of the characters.
pub fn copy_chars(cs: &[char]) -> (out: Vec<char>)
    ensures
        out@ == cs@,
{
    let mut out: Vec<char> = Vec::new();
    push_chars(&mut out, cs);
    assert(out@ =~= cs@);
    out
}

/// Appends the characters of `cs`.
pub fn push_chars(out: &mut Vec<char>, cs: &[char])
    ensures
        final(out)@ == old(out)@ + cs@,
{
    let mut i: usize = 0;
    while i < cs.len()
        invariant
            i <= cs@.len(),
            out@ == old(out)@ + cs@.take(i as int),
        decreases cs@.len() - i,
    {
        out.push(cs[i]);
        i += 1;
        assert(cs@.take(i as int) =~= cs@.take(i - 1).push(cs@[i - 1]));
        assert(out@ =~= old(out)@ + cs@.take(i as int));
    }
    assert(cs@.take(i as int) =~= cs@);
    assert(out@ =~= old(out)@ + cs@);
}

/// Appends the characters of `s`.
pub fn push_text(out: &mut Vec<char>, s: &str)
    ensures
        final(out)@ == old(out)@ + s@,
{
    let cs = chars_of(s);
    push_chars(out, cs.as_slice());
}

/// The texts of a list of strings, as strings of their own.
pub fn copy_strings(v: &Vec<String>) -> (out: Vec<String>)
    ensures
        texts(out@) == texts(v@),
        out@ == v@,
{
    let mut out: Vec<String> = Vec::new();
    let mut i: usize = 0;
    while i < v.len()
        invariant
            i <= v@.len(),
            out@ == v@.take(i as int),
        decreases v@.len() - i,
    {
        out.push(v[i].clone());
        i += 1;
        assert(v@.take(i as int) =~= v@.take(i - 1).push(v@[i - 1]));
    }
    assert(v@.take(i as int) =~= v@);
    out
}

/// A copy of an optional string.
pub fn copy_option(o: &Option<String>) -> (out: Option<String>)
    ensures
        out == *o,
{
    match o {
        Some(s) => Some(s.clone()),
        None => None,
    }
}

// ---------------------------------------------------------------------------
// Comparing and searching
// ---------------------------------------------------------------------------

/// Whether the two texts are equal.
pub fn same(a: &str, b: &str) -> (r: bool)
    ensures
        r == (a@ == b@),
{
    let x: String = a.to_owned();
    let y: String = b.to_owned();
    x == y
}

/// Whether the characters of the two slices are equal.
pub fn same_chars(a: &[char], b: &[char]) -> (r: bool)
    ensures
        r == (a@ == b@),
{
    if a.len() != b.len() {
        return false;
    }
    let mut i: usize = 0;
    while i < a.len()
        invariant
            i <= a@.len(),
            a@.len() == b@.len(),
            forall|k: int| 0 <= k < i ==> a@[k] == b@[k],
        decreases a@.len() - i,
    {
        if a[i] != b[i] {
            return false;
        }
        i += 1;
    }
    assert(a@ =~= b@);
    true
}

/// Whether `needle` stands in `hay` at `at`.
pub fn stands_at(hay: &[char], needle: &[char], at: usize) -> (r: bool)
    requires
        at <= hay@.len(),
    ensures
        r == occurs_at(hay@, needle@, at as int),
{
    let n: usize = hay.len();
    if needle.len() > n - at {
        return false;
    }
    let mut k: usize = 0;
    while k < needle.len()
        invariant
            k <= needle@.len(),
            n == hay@.len(),
            at + needle@.len() <= n,
            forall|j: int| 0 <= j < k ==> hay@[at + j] == needle@[j],
        decreases needle@.len() - k,
    {
        if hay[at + k] != needle[k] {
            assert(hay@.subrange(at as int, at + needle@.len())[k as int] != needle@[k as int]);
            return false;
        }
        k += 1;
    }
    assert(hay@.subrange(at as int, at + needle@.len()) =~= needle@);
    true
}

/// The first position at or after `from` where `needle` stands.
pub fn find_sub(hay: &[char], needle: &[char], from: usize) -> (r: Option<usize>)
    requires
        from <= hay@.len(),
    ensures
        match r {
            Some(i) => from <= i && occurs_at(hay@, needle@, i as int) && forall|j: int|
                from <= j < i ==> !#[trigger] occurs_at(hay@, needle@, j),
            None => forall|j: int| from <= j ==> !#[trigger] occurs_at(hay@, needle@, j),
        },
{
    let mut i: usize = from;
    while i < hay.len()
        invariant
            from <= i <= hay@.len(),
            forall|j: int| from <= j < i ==> !#[trigger] occurs_at(hay@, needle@, j),
        decreases hay@.len() - i,
    {
        if stands_at(hay, needle, i) {
            return Some(i);
        }
        i += 1;
    }
    if stands_at(hay, needle, i) {
        Some(i)
    } else {
        None
    }
}

/// Whether `needle` stands in `hay`.
pub fn contains_chars(hay: &[char], needle: &[char]) -> (r: bool)
    ensures
        r == has_sub(hay@, needle@),
{
    match find_sub(hay, needle, 0) {
        Some(_) => true,
        None => false,
    }
}

/// Whether `needle` stands in `hay`.
pub fn contains(hay: &str, needle: &str) -> (r: bool)
    ensures
        r == has_sub(hay@, needle@),
{
    let h = chars_of(hay);
    let n = chars_of(needle);
    contains_chars(h.as_slice(), n.as_slice())
}

/// Whether one of `needles` stands in `hay`.
pub fn contains_any(hay: &str, needles: &[&str]) -> (r: bool)
    ensures
        r == has_any(hay@, strs(needles@)),
{
    let h = chars_of(hay);
    let mut i: usize = 0;
    while i < needles.len()
        invariant
            i <= needles@.len(),
            h@ == hay@,
            forall|k: int| 0 <= k < i ==> !has_sub(hay@, #[trigger] strs(needles@)[k]),
        decreases needles@.len() - i,
    {
        let n = chars_of(needles[i]);
        if contains_chars(h.as_slice(), n.as_slice()) {
            assert(strs(needles@)[i as int] == needles@[i as int]@);
            return true;
        }
        assert(strs(needles@)[i as int] == needles@[i as int]@);
        i += 1;
    }
    false
}

/// Whether `s` begins with `p`.
pub fn starts_with_chars(s: &[char], p: &[char]) -> (r: bool)
    ensures
        r == begins(s@, p@),
{
    let r = stands_at(s, p, 0);
    proof {
        if p@.len() <= s@.len() {
            assert(s@.subrange(0, p@.len() as int) =~= s@.take(p@.len() as int));
        }
    }
    r
}

/// Whether `s` begins with `p`.
pub fn starts_with(s: &str, p: &str) -> (r: bool)
    ensures
        r == begins(s@, p@),
{
    let a = chars_of(s);
    let b = chars_of(p);
    starts_with_chars(a.as_slice(), b.as_slice())
}

/// Whether `s` ends with `p`.
pub fn ends_with_chars(s: &[char], p: &[char]) -> (r: bool)
    ensures
        r == ends(s@, p@),
{
    if p.len() > s.len() {
        return false;
    }
    let at: usize = s.len() - p.len();
    let r = stands_at(s, p, at);
    assert(s@.subrange(at as int, at + p@.len()) =~= s@.skip(at as int));
    r
}

/// Whether the character is white space.
pub fn white(c: char) -> (r: bool)
    ensures
        r == is_white(c),
{
    let n: u32 = c as u32;
    (9 <= n && n <= 13) || n == 32 || n == 0x85 || n == 0xA0 || n == 0x1680 || (0x2000 <= n && n
        <= 0x200A) || n == 0x2028 || n == 0x2029 || n == 0x202F || n == 0x205F || n == 0x3000
}

/// Whether the character is an ASCII digit.
pub fn digit_char(c: char) -> (r: bool)
    ensures
        r == is_digit(c),
{
    let n: u32 = c as u32;
    48 <= n && n <= 57
}

/// The character with an ASCII small letter made capital.
pub fn capital_of(c: char) -> (r: char)
    ensures
        r == capital(c),
{
    let n: u32 = c as u32;
    if 97 <= n && n <= 122 {
        let table = [
            'A', 'B', 'C', 'D', 'E', 'F', 'G', 'H', 'I', 'J', 'K', 'L', 'M', 'N', 'O', 'P', 'Q',
            'R', 'S', 'T', 'U', 'V', 'W', 'X', 'Y', 'Z',
        ];
        table[(n - 97) as usize]
    } else {
        c
    }
}

// ---------------------------------------------------------------------------
// Trimming
// ---------------------------------------------------------------------------

/// The slice without leading white space.
pub fn trim_start_chars(cs: &[char]) -> (r: &[char])
    ensures
        r@ == trim_start(cs@),
{
    let mut i: usize = 0;
    assert(cs@.skip(0) =~= cs@);
    while i < cs.len() && white(cs[i])
        invariant
            i <= cs@.len(),
            trim_start(cs@.skip(i as int)) == trim_start(cs@),
        decreases cs@.len() - i,
    {
        assert(cs@.skip(i as int).skip(1) =~= cs@.skip(i + 1));
        i += 1;
    }
    let r = slice_subrange(cs, i, cs.len());
    assert(r@ =~= cs@.skip(i as int));
    r
}

/// The slice without trailing white space.
pub fn trim_end_chars(cs: &[char]) -> (r: &[char])
    ensures
        r@ == trim_end(cs@),
{
    let mut j: usize = cs.len();
    assert(cs@.take(j as int) =~= cs@);
    while j > 0 && white(cs[j - 1])
        invariant
            j <= cs@.len(),
            trim_end(cs@.take(j as int)) == trim_end(cs@),
        decreases j,
    {
        assert(cs@.take(j as int).drop_last() =~= cs@.take(j - 1));
        j -= 1;
    }
    let r = slice_subrange(cs, 0, j);
    assert(r@ =~= cs@.take(j as int));
    r
}

/// The slice without white space at either end.
pub fn trim_chars(cs: &[char]) -> (r: &[char])
    ensures
        r@ == trim(cs@),
{
    trim_end_chars(trim_start_chars(cs))
}

/// The text without white space at either end.
pub fn trimmed(s: &str) -> (r: String)
    ensures
        r@ == trim(s@),
{
    let cs = chars_of(s);
    string_of(trim_chars(cs.as_slice()))
}

/// Whether the text is empty or white space.
pub fn blank(s: &str) -> (r: bool)
    ensures
        r == is_blank(s@),
{
    let cs = chars_of(s);
    trim_chars(cs.as_slice()).len() == 0
}

/// The text in lower case.
pub fn lower(s: &str) -> (r: String)
    ensures
        r@ == lowercase(s@),
{
    s.to_lowercase()
}

// ---------------------------------------------------------------------------
// Splitting and joining
// ---------------------------------------------------------------------------

/// The pieces between the characters for which `f` holds.
pub fn split_chars<F: Fn(char) -> bool>(
    cs: &[char],
    f: F,
    Ghost(sep): Ghost<spec_fn(char) -> bool>,
) -> (out: Vec<Vec<char>>)
    requires
        forall|c: char| #[trigger] f.requires((c,)),
        forall|c: char, b: bool| #[trigger] f.ensures((c,), b) ==> b == sep(c),
    ensures
        rows(out@) == split_where(cs@, sep),
{
    let mut out: Vec<Vec<char>> = Vec::new();
    let mut cur: Vec<char> = Vec::new();
    let mut i: usize = 0;
    proof {
        assert(rows(out@).push(cur@) =~= split_where(cs@.take(0), sep));
    }
    while i < cs.len()
        invariant
            i <= cs@.len(),
            forall|c: char| #[trigger] f.requires((c,)),
            forall|c: char, b: bool| #[trigger] f.ensures((c,), b) ==> b == sep(c),
            rows(out@).push(cur@) == split_where(cs@.take(i as int), sep),
        decreases cs@.len() - i,
    {
        let c = cs[i];
        let ghost before = rows(out@).push(cur@);
        proof {
            assert(cs@.take(i + 1).drop_last() =~= cs@.take(i as int));
            assert(before.drop_last() =~= rows(out@));
            assert(before.last() == cur@);
        }
        if f(c) {
            let ghost prev = rows(out@);
            let ghost piece = cur@;
            out.push(cur);
            cur = Vec::new();
            assert(rows(out@) =~= prev.push(piece));
            assert(cur@ =~= Seq::<char>::empty());
        } else {
            cur.push(c);
        }
        i += 1;
    }
    assert(cs@.take(i as int) =~= cs@);
    let ghost prev = rows(out@);
    let ghost piece = cur@;
    out.push(cur);
    assert(rows(out@) =~= prev.push(piece));
    out
}

/// The pieces between the occurrences of `c`.
pub fn split_char(cs: &[char], c: char) -> (out: Vec<Vec<char>>)
    ensures
        rows(out@) == split_on(cs@, c),
{
    let f = |x: char| -> (b: bool)
        ensures
            b == (x == c),
        { x == c };
    split_chars(cs, f, Ghost(is_char(c)))
}

/// The pieces that are not empty, in order.
pub fn drop_empty(parts: Vec<Vec<char>>) -> (out: Vec<Vec<char>>)
    ensures
        rows(out@) == non_empty(rows(parts@)),
{
    let mut out: Vec<Vec<char>> = Vec::new();
    let mut i: usize = 0;
    assert(rows(out@) =~= non_empty(rows(parts@.take(0))));
    while i < parts.len()
        invariant
            i <= parts@.len(),
            rows(out@) == non_empty(rows(parts@.take(i as int))),
        decreases parts@.len() - i,
    {
        proof {
            let r = rows(parts@.take(i + 1));
            assert(r.drop_last() =~= rows(parts@.take(i as int)));
            assert(r.last() == parts@[i as int]@);
        }
        if parts[i].len() > 0 {
            let ghost prev = rows(out@);
            out.push(copy_chars(parts[i].as_slice()));
            assert(rows(out@) =~= prev.push(parts@[i as int]@));
        }
        i += 1;
    }
    assert(parts@.take(i as int) =~= parts@);
    out
}

/// The words of the text.
pub fn split_words(cs: &[char]) -> (out: Vec<Vec<char>>)
    ensures
        rows(out@) == words(cs@),
{
    let f = |x: char| -> (b: bool)
        ensures
            b == is_white(x),
        { white(x) };
    let parts = split_chars(cs, f, Ghost(|c: char| is_white(c)));
    drop_empty(parts)
}

/// The lines of the text.
pub fn split_lines(cs: &[char]) -> (out: Vec<Vec<char>>)
    ensures
        rows(out@) == lines(cs@),
{
    let mut parts = split_char(cs, '\n');
    let ghost p = rows(parts@);
    proof {
        lemma_split_len(cs@, is_char('\n'));
        assert(p.len() == parts@.len());
    }
    let last: Vec<char> = match parts.pop() {
        Some(v) => v,
        None => Vec::new(),
    };
    assert(rows(parts@) =~= p.drop_last());
    assert(last@ == p.last());
    let ghost ended = p.drop_last().map_values(|x: Seq<char>| strip_cr(x));
    let mut out: Vec<Vec<char>> = Vec::new();
    let mut i: usize = 0;
    assert(rows(out@) =~= ended.take(0));
    while i < parts.len()
        invariant
            i <= parts@.len(),
            rows(parts@) == p.drop_last(),
            ended == p.drop_last().map_values(|x: Seq<char>| strip_cr(x)),
            rows(out@) == ended.take(i as int),
        decreases parts@.len() - i,
    {
        let n: usize = parts[i].len();
        let ghost prev = rows(out@);
        assert(rows(parts@)[i as int] == parts@[i as int]@);
        if n > 0 && parts[i][n - 1] == '\r' {
            let s = copy_chars(slice_subrange(parts[i].as_slice(), 0, n - 1));
            assert(s@ =~= strip_cr(parts@[i as int]@));
            out.push(s);
        } else {
            out.push(copy_chars(parts[i].as_slice()));
        }
        assert(rows(out@) =~= prev.push(strip_cr(parts@[i as int]@)));
        i += 1;
        assert(ended.take(i as int) =~= ended.take(i - 1).push(ended[i - 1]));
    }
    assert(ended.take(i as int) =~= ended);
    if last.len() > 0 {
        let ghost prev = rows(out@);
        let ghost piece = last@;
        out.push(last);
        assert(rows(out@) =~= prev.push(piece));
    }
    out
}

/// The first position where `needle` stands.
pub fn position_of(hay: &[char], needle: &[char]) -> (r: Option<usize>)
    ensures
        match r {
            Some(i) => find(hay@, needle@) == Some(i as int) && i + needle@.len() <= hay@.len(),
            None => find(hay@, needle@) is None,
        },
{
    let r = find_sub(hay, needle, 0);
    proof {
        lemma_find(hay@, needle@);
        match r {
            Some(i) => match find(hay@, needle@) {
                Some(k) => {
                    if k < i {
                        assert(!occurs_at(hay@, needle@, k));
                    } else if i < k {
                        assert(!occurs_at(hay@, needle@, i as int));
                    }
                },
                None => assert(!occurs_at(hay@, needle@, i as int)),
            },
            None => match find(hay@, needle@) {
                Some(k) => assert(!occurs_at(hay@, needle@, k)),
                None => {},
            },
        }
    }
    r
}

/// The pieces between the occurrences of `sep`.
pub fn split_sub(cs: &[char], sep: &[char]) -> (out: Vec<Vec<char>>)
    requires
        sep@.len() > 0,
    ensures
        rows(out@) == split_str(cs@, sep@),
{
    let mut out: Vec<Vec<char>> = Vec::new();
    let mut pos: usize = 0;
    assert(cs@.skip(0) =~= cs@);
    assert(rows(out@) + split_str(cs@.skip(0), sep@) =~= split_str(cs@, sep@));
    loop
        invariant
            pos <= cs@.len(),
            sep@.len() > 0,
            rows(out@) + split_str(cs@.skip(pos as int), sep@) == split_str(cs@, sep@),
        decreases cs@.len() - pos,
    {
        let rest = slice_subrange(cs, pos, cs.len());
        assert(rest@ =~= cs@.skip(pos as int));
        let ghost prev = rows(out@);
        match position_of(rest, sep) {
            Some(i) => {
                let piece = copy_chars(slice_subrange(rest, 0, i));
                assert(piece@ =~= rest@.take(i as int));
                out.push(piece);
                assert(rows(out@) =~= prev.push(rest@.take(i as int)));
                assert(cs@.skip(pos as int).skip(i + sep@.len()) =~= cs@.skip(pos + i + sep@.len()));
                pos = pos + i + sep.len();
                assert(rows(out@) + split_str(cs@.skip(pos as int), sep@) =~= prev + split_str(
                    rest@,
                    sep@,
                ));
            },
            None => {
                out.push(copy_chars(rest));
                assert(rows(out@) =~= prev + split_str(rest@, sep@));
                return out;
            },
        }
    }
}

/// The first line; empty where there is none.
pub fn first_line_of(cs: &[char]) -> (r: Vec<char>)
    ensures
        r@ == first_line(cs@),
{
    let ls = split_lines(cs);
    if ls.len() == 0 {
        let r: Vec<char> = Vec::new();
        assert(rows(ls@).len() == 0);
        assert(r@ =~= first_line(cs@));
        r
    } else {
        assert(rows(ls@)[0] == ls@[0]@);
        copy_chars(ls[0].as_slice())
    }
}

/// The parts one after the other with `sep` between them.
pub fn join_chars(parts: &Vec<Vec<char>>, sep: &[char]) -> (out: Vec<char>)
    ensures
        out@ == join(rows(parts@), sep@),
{
    let mut out: Vec<char> = Vec::new();
    let mut i: usize = 0;
    assert(out@ =~= join(rows(parts@.take(0)), sep@));
    while i < parts.len()
        invariant
            i <= parts@.len(),
            out@ == join(rows(parts@.take(i as int)), sep@),
        decreases parts@.len() - i,
    {
        proof {
            let r = rows(parts@.take(i + 1));
            assert(r.drop_last() =~= rows(parts@.take(i as int)));
            assert(r.last() == parts@[i as int]@);
        }
        if i > 0 {
            push_chars(&mut out, sep);
        }
        push_chars(&mut out, parts[i].as_slice());
        i += 1;
        assert(out@ =~= join(rows(parts@.take(i as int)), sep@));
    }
    assert(parts@.take(i as int) =~= parts@);
    out
}

/// The parts one after the other with `sep` between them.
pub fn join_strings(parts: &Vec<String>, sep: &str) -> (out: String)
    ensures
        out@ == join(texts(parts@), sep@),
{
    let mut out: String = String::new();
    let mut i: usize = 0;
    assert(out@ =~= join(texts(parts@.take(0)), sep@));
    while i < parts.len()
        invariant
            i <= parts@.len(),
            out@ == join(texts(parts@.take(i as int)), sep@),
        decreases parts@.len() - i,
    {
        proof {
            let r = texts(parts@.take(i + 1));
            assert(r.drop_last() =~= texts(parts@.take(i as int)));
            assert(r.last() == parts@[i as int]@);
        }
        if i > 0 {
            out.append(sep);
        }
        out.append(parts[i].as_str());
        i += 1;
        assert(out@ =~= join(texts(parts@.take(i as int)), sep@));
    }
    assert(parts@.take(i as int) =~= parts@);
    out
}

/// The first `n` characters, or all of them.
pub fn head_of(s: &str, n: usize) -> (r: String)
    ensures
        r@ == first_chars(s@, n as int),
{
    let cs = chars_of(s);
    if cs.len() <= n {
        string_of(cs.as_slice())
    } else {
        let h = slice_subrange(cs.as_slice(), 0, n);
        assert(h@ =~= s@.take(n as int));
        string_of(h)
    }
}

/// The number of characters.
pub fn count_chars(s: &str) -> (n: usize)
    ensures
        n == s@.len(),
{
    chars_of(s).len()
}

/// The text of the bytes from `from` up to `to`.
pub fn byte_slice(s: &str, from: usize, to: usize) -> (r: &str)
    requires
        from <= to,
        vstd::utf8::is_char_boundary(vstd::utf8::encode_utf8(s@), from as int),
        vstd::utf8::is_char_boundary(vstd::utf8::encode_utf8(s@), to as int),
        to <= byte_len(s@),
    ensures
        vstd::utf8::encode_utf8(r@) == vstd::utf8::encode_utf8(s@).subrange(from as int, to as int),
{
    let ghost b = vstd::utf8::encode_utf8(s@);
    let (front, _rest) = s.split_at(to);
    proof {
        let f = vstd::utf8::encode_utf8(front@);
        vstd::utf8::encode_utf8_valid_utf8(s@);
        vstd::utf8::encode_utf8_valid_utf8(front@);
        assert(f =~= b.subrange(0, to as int));
        if from < to {
            vstd::utf8::is_char_boundary_iff_not_is_continuation_byte(b, from as int);
            vstd::utf8::is_char_boundary_iff_not_is_continuation_byte(f, from as int);
            assert(f[from as int] == b[from as int]);
        } else {
            vstd::utf8::is_char_boundary_start_end_of_seq(f);
        }
    }
    let (_head, mid) = front.split_at(from);
    assert(vstd::utf8::encode_utf8(mid@) =~= b.subrange(from as int, to as int));
    mid
}

/// The number of bytes.
pub fn count_bytes(s: &str) -> (n: usize)
    ensures
        n == byte_len(s@),
{
    let b = s.as_bytes();
    b.len()
}

// ---------------------------------------------------------------------------
// Lists of strings
// ---------------------------------------------------------------------------

/// Whether the list holds the text.
pub fn list_has(v: &Vec<String>, s: &str) -> (r: bool)
    ensures
        r == texts(v@).contains(s@),
{
    let mut i: usize = 0;
    while i < v.len()
        invariant
            i <= v@.len(),
            forall|k: int| 0 <= k < i ==> #[trigger] v@[k]@ != s@,
        decreases v@.len() - i,
    {
        if same(v[i].as_str(), s) {
            assert(texts(v@)[i as int] == s@);
            return true;
        }
        i += 1;
    }
    assert forall|k: int| 0 <= k < v@.len() implies #[trigger] texts(v@)[k] != s@ by {
        assert(texts(v@)[k] == v@[k]@);
    }
    false
}

/// Whether the text is one of the literals.
pub fn one_of(s: &str, v: &[&str]) -> (r: bool)
    ensures
        r == strs(v@).contains(s@),
{
    let mut i: usize = 0;
    while i < v.len()
        invariant
            i <= v@.len(),
            forall|k: int| 0 <= k < i ==> #[trigger] v@[k]@ != s@,
        decreases v@.len() - i,
    {
        if same(v[i], s) {
            assert(strs(v@)[i as int] == s@);
            return true;
        }
        i += 1;
    }
    assert forall|k: int| 0 <= k < v@.len() implies #[trigger] strs(v@)[k] != s@ by {
        assert(strs(v@)[k] == v@[k]@);
    }
    false
}

// ---------------------------------------------------------------------------
// Numbers
// ---------------------------------------------------------------------------

fn digit_of(d: u64) -> (c: char)
    requires
        d < 16,
    ensures
        c == digit(d as int),
{
    let table: [char; 16] = [
        '0', '1', '2', '3', '4', '5', '6', '7', '8', '9', 'a', 'b', 'c', 'd', 'e', 'f',
    ];
    table[d as usize]
}

/// Appends `n` in decimal.
pub fn push_decimal(out: &mut String, n: u64)
    ensures
        final(out)@ == old(out)@ + decimal(n as nat),
    decreases n,
{
    let ghost start = out@;
    if n >= 10 {
        push_decimal(out, n / 10);
    }
    out.push(digit_of(n % 10));
    assert(out@ =~= start + decimal(n as nat));
}

/// `n` in decimal.
pub fn decimal_of(n: u64) -> (out: String)
    ensures
        out@ == decimal(n as nat),
{
    let mut out: String = String::new();
    push_decimal(&mut out, n);
    assert(out@ =~= decimal(n as nat));
    out
}

/// Appends the last `width` hexadecimal digits of `n`.
pub fn push_hex(out: &mut String, n: u64, width: u64)
    ensures
        final(out)@ == old(out)@ + hex(n as nat, width as nat),
    decreases width,
{
    let ghost start = out@;
    if width > 0 {
        push_hex(out, n / 16, width - 1);
        out.push(digit_of(n % 16));
    }
    assert(out@ =~= start + hex(n as nat, width as nat));
}

} // verus!
