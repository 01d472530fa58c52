//! The long-term note of a character, a markdown file in two regions.
//!
//! Sections whose heading is a date and time (`YYYY-MM-DD HH:MM`) are raw
//! sediment that still waits to be tidied; all other sections are consolidated.
//! The file never grows beyond [`MEMORY_MD_MAX_CHARS`] characters.

use crate::text::{begins, blank, capital, capital_of, chars_of, copy_chars, decimal, decimal_of, digit_char,
    first_line, first_line_of, find, is_blank, is_digit, is_white, join, join_chars, last_chars, lines,
    position_of, push_chars, push_text, rows, same_chars, split_lines, split_str, split_sub,
    starts_with_chars, string_of, trim, trim_chars, trim_end, trim_end_chars, trim_start, trim_start_chars,
    trimmed, white};
use vstd::prelude::*;
use vstd::slice::*;
use vstd::string::*;

verus! {

/// Largest number of characters of the file.
pub const MEMORY_MD_MAX_CHARS: usize = 2000;

/// Number of non-blank waiting lines from which an incremental tidy is due.
pub const MEMORY_MD_TIDY_PENDING_LINES: usize = 12;

/// Number of characters beyond which the file is compacted as a whole.
pub const MEMORY_MD_COMPACT_CHARS: usize = 1700;

/// Heading of the section that takes new entries until the next compaction.
pub const MEMORY_MD_RECENT_HEADING: &'static str = "## 近期补充";

/// Head of the file.
pub const MEMORY_MD_HEADER: &'static str = "# 长期记忆笔记\n\n> 本文件随对话自动沉淀（只记相处约定、承诺、教训和梗），睡眠期自动整理合并。\n> 每次对话全量注入上下文，是与主人相处的长期约定。\n";

/// Which tidying the file needs.
#[derive(Debug, Clone, Copy, PartialEq, Eq, Structural)]
pub enum TidyNeed {
    /// Nothing is due.
    NotNeeded,
    /// Merge the waiting region into the consolidated one.
    Incremental,
    /// Rewrite the whole file by topic.
    FullCompaction,
}

/// The two regions of the file, without its head.
#[derive(Debug, PartialEq, Eq, Default)]
pub struct MemoryMdRegions {
    /// Sections by topic.
    pub consolidated_body: String,
    /// Dated sections, oldest first.
    pub pending_body: String,
}

// ---------------------------------------------------------------------------
// Headings and the head of the file
// ---------------------------------------------------------------------------

/// `YYYY-MM-DD HH:MM`, with a space or a `T` in the middle.
pub open spec fn is_date_time(t: Seq<char>) -> bool {
    &&& t.len() == 16
    &&& is_digit(t[0]) && is_digit(t[1]) && is_digit(t[2]) && is_digit(t[3])
    &&& t[4] == '-'
    &&& is_digit(t[5]) && is_digit(t[6])
    &&& t[7] == '-'
    &&& is_digit(t[8]) && is_digit(t[9])
    &&& (t[10] == ' ' || t[10] == 'T')
    &&& is_digit(t[11]) && is_digit(t[12])
    &&& t[13] == ':'
    &&& is_digit(t[14]) && is_digit(t[15])
}

fn date_time(t: &[char]) -> (r: bool)
    ensures
        r == is_date_time(t@),
{
    t.len() == 16 && digit_char(t[0]) && digit_char(t[1]) && digit_char(t[2]) && digit_char(t[3])
        && t[4] == '-' && digit_char(t[5]) && digit_char(t[6]) && t[7] == '-' && digit_char(t[8])
        && digit_char(t[9]) && (t[10] == ' ' || t[10] == 'T') && digit_char(t[11])
        && digit_char(t[12]) && t[13] == ':' && digit_char(t[14]) && digit_char(t[15])
}

/// Whether a heading is the date of an appended section: the date and time and
/// nothing else.
pub fn is_date_header(header: &str) -> (r: bool)
    ensures
        r == is_date_time(trim(header@)),
{
    let cs = chars_of(header);
    date_time(trim_chars(cs.as_slice()))
}

/// `s` without the line feeds at its beginning.
pub open spec fn drop_newlines(s: Seq<char>) -> Seq<char>
    decreases s.len(),
{
    if s.len() > 0 && s[0] == '\n' {
        drop_newlines(s.skip(1))
    } else {
        s
    }
}

/// `s` without the line feeds and quoted lines at its beginning.
pub open spec fn drop_quotes(s: Seq<char>) -> Seq<char>
    decreases s.len(),
{
    let t = drop_newlines(s);
    if t.len() > 0 && t[0] == '>' {
        match find(t, seq!['\n']) {
            Some(p) => if 0 <= p < t.len() <= s.len() {
                drop_quotes(t.skip(p + 1))
            } else {
                Seq::<char>::empty()
            },
            None => Seq::<char>::empty(),
        }
    } else {
        t
    }
}

/// Whether a line is a heading of the first level.
pub open spec fn is_title(line: Seq<char>) -> bool {
    begins(line, "# "@) || trim_end(line) == "#"@
}

/// `content` without its head: a heading of the first level and the quoted lines
/// that follow it.
pub open spec fn without_head(content: Seq<char>) -> Seq<char> {
    let t = trim_start(content);
    if !is_title(first_line(t)) {
        t
    } else {
        match find(t, seq!['\n']) {
            Some(p) => drop_quotes(t.skip(p + 1)),
            None => Seq::<char>::empty(),
        }
    }
}

proof fn lemma_drop_newlines(s: Seq<char>)
    ensures
        drop_newlines(s).len() <= s.len(),
    decreases s.len(),
{
    if s.len() > 0 && s[0] == '\n' {
        lemma_drop_newlines(s.skip(1));
    }
}

fn skip_newlines(cs: &[char]) -> (r: &[char])
    ensures
        r@ == drop_newlines(cs@),
{
    let mut i: usize = 0;
    assert(cs@.skip(0) =~= cs@);
    while i < cs.len() && cs[i] == '\n'
        invariant
            i <= cs@.len(),
            drop_newlines(cs@.skip(i as int)) == drop_newlines(cs@),
        decreases cs@.len() - i,
    {
        assert(cs@.skip(i as int).skip(1) =~= cs@.skip(i + 1));
        i += 1;
    }
    let r = slice_subrange(cs, i, cs.len());
    assert(r@ =~= cs@.skip(i as int));
    r
}

fn skip_quotes(cs: &[char]) -> (r: Vec<char>)
    ensures
        r@ == drop_quotes(cs@),
    decreases cs@.len(),
{
    proof {
        lemma_drop_newlines(cs@);
    }
    let t = skip_newlines(cs);
    if t.len() > 0 && t[0] == '>' {
        let nl = vec!['\n'];
        assert(nl@ =~= seq!['\n']);
        match position_of(t, nl.as_slice()) {
            Some(p) => {
                let rest = slice_subrange(t, p + 1, t.len());
                assert(rest@ =~= t@.skip(p + 1));
                skip_quotes(rest)
            },
            None => {
                let r: Vec<char> = Vec::new();
                assert(r@ =~= Seq::<char>::empty());
                r
            },
        }
    } else {
        copy_chars(t)
    }
}

fn header_stripped(cs: &[char]) -> (r: Vec<char>)
    ensures
        r@ == without_head(cs@),
{
    let t = trim_start_chars(cs);
    let n: usize = t.len();
    let line = first_line_of(t);
    let hash_space = chars_of("# ");
    let hash = chars_of("#");
    if !(starts_with_chars(line.as_slice(), hash_space.as_slice()) || same_chars(
        trim_end_chars(line.as_slice()),
        hash.as_slice(),
    )) {
        return copy_chars(t);
    }
    let nl = vec!['\n'];
    assert(nl@ =~= seq!['\n']);
    match position_of(t, nl.as_slice()) {
        Some(p) => {
            let rest = slice_subrange(t, p + 1, n);
            assert(rest@ =~= t@.skip(p + 1));
            skip_quotes(rest)
        },
        None => {
            let r: Vec<char> = Vec::new();
            assert(r@ =~= Seq::<char>::empty());
            r
        },
    }
}

/// The content without its head.
pub fn strip_file_header(content: &str) -> (r: String)
    ensures
        r@ == without_head(content@),
{
    let cs = chars_of(content);
    let r = header_stripped(cs.as_slice());
    string_of(r.as_slice())
}

// ---------------------------------------------------------------------------
// Sections
// ---------------------------------------------------------------------------

/// What stands before the heading of a section.
pub open spec fn marker() -> Seq<char> {
    "\n## "@
}

/// What stands before the first section.
pub open spec fn preamble(s: Seq<char>) -> Seq<char> {
    match find(s, marker()) {
        Some(i) => s.take(i),
        None => s,
    }
}

/// The pieces that the marker separates, from the first section on.
pub open spec fn chunks(s: Seq<char>) -> Seq<Seq<char>> {
    match find(s, marker()) {
        Some(i) => split_str(s.skip(i), marker()),
        None => split_str(Seq::<char>::empty(), marker()),
    }
}

/// A section whose heading is a date.
pub open spec fn is_dated(chunk: Seq<char>) -> bool {
    is_date_time(trim(first_line(chunk)))
}

/// The sections among the chunks, each behind its marker, that are dated or that
/// are not.
pub open spec fn region(cs: Seq<Seq<char>>, dated: bool) -> Seq<char>
    decreases cs.len(),
{
    if cs.len() == 0 {
        Seq::<char>::empty()
    } else {
        let rest = region(cs.drop_last(), dated);
        let c = cs.last();
        if is_blank(c) || is_dated(c) != dated {
            rest
        } else {
            rest + (marker() + c)
        }
    }
}

/// The text in which the sections are looked for.
pub open spec fn sectioned(content: Seq<char>) -> Seq<char> {
    let body = without_head(content);
    if begins(body, "## "@) {
        seq!['\n'] + body
    } else {
        body
    }
}

/// The consolidated region: what stands before the first section, and the
/// sections that are not dated.
pub open spec fn consolidated(content: Seq<char>) -> Seq<char> {
    let n = sectioned(content);
    let head = preamble(n);
    trim(
        (if is_blank(head) {
            Seq::<char>::empty()
        } else {
            trim(head).push('\n')
        }) + region(chunks(n), false),
    )
}

/// The waiting region: the dated sections.
pub open spec fn pending(content: Seq<char>) -> Seq<char> {
    trim(region(chunks(sectioned(content)), true))
}

fn marker_chars() -> (m: Vec<char>)
    ensures
        m@ == marker(),
        m@.len() == 4,
{
    proof {
        reveal_strlit("\n## ");
    }
    chars_of("\n## ")
}

fn preamble_and_chunks(cs: &[char]) -> (r: (Vec<char>, Vec<Vec<char>>))
    ensures
        r.0@ == preamble(cs@),
        rows(r.1@) == chunks(cs@),
{
    let m = marker_chars();
    match position_of(cs, m.as_slice()) {
        Some(i) => {
            let head = copy_chars(slice_subrange(cs, 0, i));
            assert(head@ =~= cs@.take(i as int));
            let rest = slice_subrange(cs, i, cs.len());
            assert(rest@ =~= cs@.skip(i as int));
            (head, split_sub(rest, m.as_slice()))
        },
        None => {
            let empty: Vec<char> = Vec::new();
            assert(empty@ =~= Seq::<char>::empty());
            (copy_chars(cs), split_sub(empty.as_slice(), m.as_slice()))
        },
    }
}

fn dated(chunk: &[char]) -> (r: bool)
    ensures
        r == is_dated(chunk@),
{
    let line = first_line_of(chunk);
    date_time(trim_chars(line.as_slice()))
}

/// Cuts the file into its two regions.
pub fn split_regions(content: &str) -> (r: MemoryMdRegions)
    ensures
        r.consolidated_body@ == consolidated(content@),
        r.pending_body@ == pending(content@),
{
    let cs = chars_of(content);
    let body = header_stripped(cs.as_slice());
    let hashes = chars_of("## ");
    let mut normalized: Vec<char> = Vec::new();
    if starts_with_chars(body.as_slice(), hashes.as_slice()) {
        normalized.push('\n');
    }
    push_chars(&mut normalized, body.as_slice());
    assert(normalized@ =~= sectioned(content@));
    let (head, parts) = preamble_and_chunks(normalized.as_slice());
    let mut kept: Vec<char> = Vec::new();
    let trimmed_head = trim_chars(head.as_slice());
    if trimmed_head.len() > 0 {
        push_chars(&mut kept, trimmed_head);
        kept.push('\n');
    }
    let ghost start = kept@;
    assert(start =~= if is_blank(head@) {
        Seq::<char>::empty()
    } else {
        trim(head@).push('\n')
    });
    let m = marker_chars();
    let mut waiting: Vec<char> = Vec::new();
    let mut i: usize = 0;
    let ghost all = rows(parts@);
    assert(kept@ =~= start + region(all.take(0), false));
    assert(waiting@ =~= region(all.take(0), true));
    while i < parts.len()
        invariant
            i <= parts@.len(),
            all == rows(parts@),
            m@ == marker(),
            kept@ == start + region(all.take(i as int), false),
            waiting@ == region(all.take(i as int), true),
        decreases parts@.len() - i,
    {
        let c = parts[i].as_slice();
        proof {
            assert(all[i as int] == parts@[i as int]@);
            assert(all.take(i + 1).drop_last() =~= all.take(i as int));
            assert(all.take(i + 1).last() == c@);
        }
        let ghost k0 = kept@;
        let ghost w0 = waiting@;
        if trim_chars(c).len() > 0 {
            if dated(c) {
                push_chars(&mut waiting, m.as_slice());
                push_chars(&mut waiting, c);
                assert(waiting@ =~= w0 + (marker() + c@));
            } else {
                push_chars(&mut kept, m.as_slice());
                push_chars(&mut kept, c);
                assert(kept@ =~= k0 + (marker() + c@));
                assert(kept@ =~= start + region(all.take(i + 1), false));
            }
        }
        i += 1;
    }
    assert(all.take(i as int) =~= all);
    MemoryMdRegions {
        consolidated_body: string_of(trim_chars(kept.as_slice())),
        pending_body: string_of(trim_chars(waiting.as_slice())),
    }
}

// ---------------------------------------------------------------------------
// Tidying
// ---------------------------------------------------------------------------

/// The number of lines that are not blank.
pub open spec fn filled_lines(ls: Seq<Seq<char>>) -> nat
    decreases ls.len(),
{
    if ls.len() == 0 {
        0
    } else {
        filled_lines(ls.drop_last()) + (if is_blank(ls.last()) {
            0nat
        } else {
            1nat
        })
    }
}

/// Compaction comes first, then the incremental tidy.
pub open spec fn tidy_rule(text: Seq<char>) -> TidyNeed {
    if text.len() > MEMORY_MD_COMPACT_CHARS {
        TidyNeed::FullCompaction
    } else if filled_lines(lines(pending(text))) >= MEMORY_MD_TIDY_PENDING_LINES {
        TidyNeed::Incremental
    } else {
        TidyNeed::NotNeeded
    }
}

/// Which tidying the text needs.
pub fn tidy_need_for_text(text: &str) -> (r: TidyNeed)
    ensures
        r == tidy_rule(text@),
{
    let cs = chars_of(text);
    if cs.len() > MEMORY_MD_COMPACT_CHARS {
        return TidyNeed::FullCompaction;
    }
    let regions = split_regions(text);
    let p = chars_of(regions.pending_body.as_str());
    let ls = split_lines(p.as_slice());
    let mut n: usize = 0;
    let mut i: usize = 0;
    let ghost all = rows(ls@);
    while i < ls.len()
        invariant
            i <= ls@.len(),
            n <= i,
            all == rows(ls@),
            n == filled_lines(all.take(i as int)),
        decreases ls@.len() - i,
    {
        proof {
            assert(all[i as int] == ls@[i as int]@);
            assert(all.take(i + 1).drop_last() =~= all.take(i as int));
        }
        if trim_chars(ls[i].as_slice()).len() > 0 {
            n += 1;
        }
        i += 1;
    }
    assert(all.take(i as int) =~= all);
    if n >= MEMORY_MD_TIDY_PENDING_LINES {
        TidyNeed::Incremental
    } else {
        TidyNeed::NotNeeded
    }
}

/// The note as it is stored: trimmed, and none where it is blank or the
/// character is unnamed.
pub open spec fn stored_note(char_id: Seq<char>, file: Option<Seq<char>>) -> Option<Seq<char>> {
    match file {
        Some(text) => if is_blank(char_id) || is_blank(text) {
            None
        } else {
            Some(trim(text))
        },
        None => None,
    }
}

/// The whole note of a character, given what its file holds.
pub fn read_memory_md_raw(char_id: &str, file: Option<String>) -> (r: Option<String>)
    ensures
        crate::text::opt_text(r) == stored_note(char_id@, crate::text::opt_text(file)),
{
    match file {
        Some(text) => {
            let t = trimmed(text.as_str());
            if blank(char_id) || blank(text.as_str()) {
                None
            } else {
                Some(t)
            }
        },
        None => None,
    }
}

/// The note as it is shown: where it is too long, its end behind a remark.
pub open spec fn shown_note(note: Option<Seq<char>>) -> Option<Seq<char>> {
    match note {
        Some(t) => if t.len() <= MEMORY_MD_MAX_CHARS {
            Some(t)
        } else {
            Some("（较早内容已截断）\n"@ + last_chars(t, MEMORY_MD_MAX_CHARS as int))
        },
        None => None,
    }
}

/// The note of a character as it is shown, given what its file holds.
pub fn read_memory_md(char_id: &str, file: Option<String>) -> (r: Option<String>)
    ensures
        crate::text::opt_text(r) == shown_note(
            stored_note(char_id@, crate::text::opt_text(file)),
        ),
{
    match read_memory_md_raw(char_id, file) {
        Some(full) => {
            let cs = chars_of(full.as_str());
            if cs.len() <= MEMORY_MD_MAX_CHARS {
                return Some(full);
            }
            let tail = slice_subrange(cs.as_slice(), cs.len() - MEMORY_MD_MAX_CHARS, cs.len());
            assert(tail@ =~= last_chars(full@, MEMORY_MD_MAX_CHARS as int));
            let mut out: String = "（较早内容已截断）\n".to_owned();
            let t = string_of(tail);
            out.append(t.as_str());
            Some(out)
        },
        None => None,
    }
}

/// Which tidying the note of a character needs, given what its file holds.
pub fn tidy_need(char_id: &str, file: Option<String>) -> (r: TidyNeed)
    ensures
        r == (match stored_note(char_id@, crate::text::opt_text(file)) {
            Some(t) => tidy_rule(t),
            None => TidyNeed::NotNeeded,
        }),
{
    match read_memory_md_raw(char_id, file) {
        Some(text) => tidy_need_for_text(text.as_str()),
        None => TidyNeed::NotNeeded,
    }
}

// ---------------------------------------------------------------------------
// Rewriting
// ---------------------------------------------------------------------------

/// The file with that body below the head.
pub open spec fn composed(body: Seq<char>) -> Seq<char> {
    if is_blank(body) {
        MEMORY_MD_HEADER@
    } else {
        MEMORY_MD_HEADER@ + seq!['\n'] + trim(body) + seq!['\n']
    }
}

/// The refusal of a file of `n` characters.
pub open spec fn too_long(n: nat) -> Seq<char> {
    "重写后的笔记为 "@ + decimal(n) + " 字符，超过上限 "@ + decimal(MEMORY_MD_MAX_CHARS as nat)
        + "，请合并去重后精简重试"@
}

/// The file with that body, or a refusal where it would be too long.
pub fn compose_memory_md(body: &str) -> (r: Result<String, String>)
    ensures
        match r {
            Ok(c) => c@ == composed(body@) && c@.len() <= MEMORY_MD_MAX_CHARS,
            Err(e) => composed(body@).len() > MEMORY_MD_MAX_CHARS && e@ == too_long(
                composed(body@).len(),
            ),
        },
{
    let mut content: Vec<char> = chars_of(MEMORY_MD_HEADER);
    let b = chars_of(body);
    let t = trim_chars(b.as_slice());
    if t.len() > 0 {
        content.push('\n');
        push_chars(&mut content, t);
        content.push('\n');
    }
    assert(content@ =~= composed(body@));
    let n: usize = content.len();
    if n > MEMORY_MD_MAX_CHARS {
        let mut e: String = "重写后的笔记为 ".to_owned();
        let d = decimal_of(n as u64);
        e.append(d.as_str());
        e.append(" 字符，超过上限 ");
        let m = decimal_of(MEMORY_MD_MAX_CHARS as u64);
        e.append(m.as_str());
        e.append("，请合并去重后精简重试");
        return Err(e);
    }
    Ok(string_of(content.as_slice()))
}

/// What is to be written to the file of a character when its body is replaced.
pub fn write_memory_md(char_id: &str, body: &str) -> (r: Result<String, String>)
    ensures
        is_blank(char_id@) ==> r is Err && r->Err_0@ == "缺少角色 ID"@,
        !is_blank(char_id@) ==> match r {
            Ok(c) => c@ == composed(body@) && c@.len() <= MEMORY_MD_MAX_CHARS,
            Err(e) => composed(body@).len() > MEMORY_MD_MAX_CHARS && e@ == too_long(
                composed(body@).len(),
            ),
        },
{
    if blank(char_id) {
        return Err("缺少角色 ID".to_owned());
    }
    compose_memory_md(body)
}

// ---------------------------------------------------------------------------
// The budget
// ---------------------------------------------------------------------------

/// The sections among the chunks: those that are not blank.
pub open spec fn filled(cs: Seq<Seq<char>>) -> Seq<Seq<char>>
    decreases cs.len(),
{
    if cs.len() == 0 {
        Seq::<Seq<char>>::empty()
    } else if is_blank(cs.last()) {
        filled(cs.drop_last())
    } else {
        filled(cs.drop_last()).push(cs.last())
    }
}

/// The sections one after the other, each behind its marker.
pub open spec fn assembled(secs: Seq<Seq<char>>) -> Seq<char>
    decreases secs.len(),
{
    if secs.len() == 0 {
        Seq::<char>::empty()
    } else {
        assembled(secs.drop_last()) + (marker() + secs.last())
    }
}

/// Whether a head of `h` characters and the sections fit.
pub open spec fn fits(h: nat, secs: Seq<Seq<char>>) -> bool {
    h + assembled(secs).len() <= MEMORY_MD_MAX_CHARS
}

/// The position of the oldest dated section.
pub open spec fn oldest_dated(secs: Seq<Seq<char>>) -> Option<int>
    decreases secs.len(),
{
    if secs.len() == 0 {
        None
    } else if is_dated(secs[0]) {
        Some(0)
    } else {
        match oldest_dated(secs.skip(1)) {
            Some(i) => Some(i + 1),
            None => None,
        }
    }
}

/// The sections after dated ones were dropped, oldest first, until the rest fits,
/// one section is left or none is dated.
pub open spec fn without_dated(h: nat, secs: Seq<Seq<char>>) -> Seq<Seq<char>>
    decreases secs.len(),
{
    if fits(h, secs) || secs.len() <= 1 {
        secs
    } else {
        match oldest_dated(secs) {
            Some(i) => if 0 <= i < secs.len() {
                without_dated(h, secs.remove(i))
            } else {
                secs
            },
            None => secs,
        }
    }
}

/// The sections after the oldest were dropped until the rest fits or one is left.
pub open spec fn without_oldest(h: nat, secs: Seq<Seq<char>>) -> Seq<Seq<char>>
    decreases secs.len(),
{
    if fits(h, secs) || secs.len() <= 1 {
        secs
    } else {
        without_oldest(h, secs.skip(1))
    }
}

/// The remark that stands where the beginning of the last section was cut off.
pub open spec fn cut_remark() -> Seq<char> {
    "\n## （更早内容因超长被截断）\n"@
}

/// The end of `s` behind the head and the remark, as much of it as fits; the head
/// is left out where it takes all the room itself.
pub open spec fn cut_to_fit(head: Seq<char>, s: Seq<char>) -> Seq<char> {
    let front = (if head.len() + cut_remark().len() <= MEMORY_MD_MAX_CHARS {
        head
    } else {
        Seq::<char>::empty()
    }) + cut_remark();
    front + last_chars(s, MEMORY_MD_MAX_CHARS - front.len())
}

/// The sections that stay.
pub open spec fn surviving(content: Seq<char>) -> Seq<Seq<char>> {
    let h = preamble(content).len();
    without_oldest(h, without_dated(h, filled(chunks(content))))
}

/// The content within the budget.
pub open spec fn budgeted(content: Seq<char>) -> Seq<char> {
    if content.len() <= MEMORY_MD_MAX_CHARS {
        content
    } else {
        let head = preamble(content);
        let s = head + assembled(surviving(content));
        if s.len() <= MEMORY_MD_MAX_CHARS {
            s
        } else {
            cut_to_fit(head, s)
        }
    }
}

/// How many sections were dropped; a cut counts as one where none was.
pub open spec fn evictions(content: Seq<char>) -> int {
    if content.len() <= MEMORY_MD_MAX_CHARS {
        0
    } else {
        let n = filled(chunks(content)).len() - surviving(content).len();
        if n == 0 && (preamble(content) + assembled(surviving(content))).len()
            > MEMORY_MD_MAX_CHARS {
            1
        } else {
            n
        }
    }
}

proof fn lemma_oldest_dated(secs: Seq<Seq<char>>)
    ensures
        match oldest_dated(secs) {
            Some(i) => 0 <= i < secs.len() && is_dated(secs[i]) && forall|j: int|
                0 <= j < i ==> !is_dated(#[trigger] secs[j]),
            None => forall|j: int| 0 <= j < secs.len() ==> !is_dated(#[trigger] secs[j]),
        },
    decreases secs.len(),
{
    if secs.len() > 0 && !is_dated(secs[0]) {
        lemma_oldest_dated(secs.skip(1));
        match oldest_dated(secs.skip(1)) {
            Some(i) => {
                assert forall|j: int| 0 <= j < i + 1 implies !is_dated(#[trigger] secs[j]) by {
                    if j > 0 {
                        assert(secs.skip(1)[j - 1] == secs[j]);
                    }
                }
            },
            None => {
                assert forall|j: int| 0 <= j < secs.len() implies !is_dated(#[trigger] secs[j]) by {
                    if j > 0 {
                        assert(secs.skip(1)[j - 1] == secs[j]);
                    }
                }
            },
        }
    }
}

proof fn lemma_remark_len()
    ensures
        cut_remark().len() <= 100,
{
    reveal_strlit("\n## （更早内容因超长被截断）\n");
}

/// A file within the budget is left as it is, and what comes out of the budget
/// is never longer than it allows.
pub proof fn budget_holds(content: Seq<char>)
    ensures
        budgeted(content).len() <= MEMORY_MD_MAX_CHARS,
        content.len() <= MEMORY_MD_MAX_CHARS ==> budgeted(content) == content,
{
    lemma_remark_len();
}

/// A section by topic is dropped only once no dated section is left.
pub proof fn dated_sections_go_first(h: nat, secs: Seq<Seq<char>>)
    ensures
        without_oldest(h, without_dated(h, secs)) != without_dated(h, secs) ==> forall|k: int|
            0 <= k < without_dated(h, secs).len() ==> !is_dated(
                #[trigger] without_dated(h, secs)[k],
            ),
    decreases secs.len(),
{
    lemma_oldest_dated(secs);
    if !(fits(h, secs) || secs.len() <= 1) {
        match oldest_dated(secs) {
            Some(i) => {
                dated_sections_go_first(h, secs.remove(i));
            },
            None => {},
        }
    }
}

/// While dated sections are dropped, every section by topic stays.
pub proof fn topics_survive_dated_eviction(h: nat, secs: Seq<Seq<char>>, c: Seq<char>)
    requires
        secs.contains(c),
        !is_dated(c),
    ensures
        without_dated(h, secs).contains(c),
    decreases secs.len(),
{
    lemma_oldest_dated(secs);
    if !(fits(h, secs) || secs.len() <= 1) {
        match oldest_dated(secs) {
            Some(i) => {
                let k = secs.index_of(c);
                assert(secs[k] == c && k != i);
                let r = secs.remove(i);
                if k < i {
                    assert(r[k] == c);
                } else {
                    assert(r[k - 1] == c);
                }
                topics_survive_dated_eviction(h, r, c);
            },
            None => {},
        }
    }
}

fn chars_sum(h: usize, secs: &Vec<Vec<char>>) -> (r: bool)
    ensures
        r == fits(h as nat, rows(secs@)),
{
    let mut total: usize = 0;
    let mut i: usize = 0;
    let ghost all = rows(secs@);
    proof {
        reveal_strlit("\n## ");
    }
    if h > MEMORY_MD_MAX_CHARS {
        return false;
    }
    while i < secs.len()
        invariant
            i <= secs@.len(),
            all == rows(secs@),
            marker().len() == 4,
            h <= MEMORY_MD_MAX_CHARS,
            total <= MEMORY_MD_MAX_CHARS,
            total == assembled(all.take(i as int)).len(),
        decreases secs@.len() - i,
    {
        let n: usize = secs[i].len();
        proof {
            assert(all[i as int] == secs@[i as int]@);
            assert(all.take(i + 1).drop_last() =~= all.take(i as int));
            lemma_assembled_grows(all, i + 1);
        }
        if n > MEMORY_MD_MAX_CHARS || total + 4 + n > MEMORY_MD_MAX_CHARS {
            return false;
        }
        total = total + 4 + n;
        i += 1;
    }
    assert(all.take(i as int) =~= all);
    h + total <= MEMORY_MD_MAX_CHARS
}

proof fn lemma_assembled_grows(secs: Seq<Seq<char>>, i: int)
    requires
        0 <= i <= secs.len(),
    ensures
        assembled(secs.take(i)).len() <= assembled(secs).len(),
    decreases secs.len() - i,
{
    if i < secs.len() {
        assert(secs.take(i + 1).drop_last() =~= secs.take(i));
        lemma_assembled_grows(secs, i + 1);
    } else {
        assert(secs.take(i) =~= secs);
    }
}

fn first_dated_of(secs: &Vec<Vec<char>>) -> (r: Option<usize>)
    ensures
        match r {
            Some(i) => oldest_dated(rows(secs@)) == Some(i as int) && i < secs@.len(),
            None => oldest_dated(rows(secs@)) is None,
        },
{
    let mut i: usize = 0;
    let ghost all = rows(secs@);
    while i < secs.len()
        invariant
            i <= secs@.len(),
            all == rows(secs@),
            forall|j: int| 0 <= j < i ==> !is_dated(#[trigger] all[j]),
        decreases secs@.len() - i,
    {
        assert(all[i as int] == secs@[i as int]@);
        if dated(secs[i].as_slice()) {
            proof {
                lemma_oldest_dated(all);
                match oldest_dated(all) {
                    Some(k) => {
                        if k < i {
                            assert(!is_dated(all[k]));
                        } else if i < k {
                            assert(!is_dated(all[i as int]));
                        }
                    },
                    None => assert(!is_dated(all[i as int])),
                }
            }
            return Some(i);
        }
        i += 1;
    }
    proof {
        lemma_oldest_dated(all);
    }
    None
}

fn keep_filled(parts: &Vec<Vec<char>>) -> (out: Vec<Vec<char>>)
    ensures
        rows(out@) == filled(rows(parts@)),
{
    let mut out: Vec<Vec<char>> = Vec::new();
    let mut i: usize = 0;
    let ghost all = rows(parts@);
    assert(rows(out@) =~= filled(all.take(0)));
    while i < parts.len()
        invariant
            i <= parts@.len(),
            all == rows(parts@),
            rows(out@) == filled(all.take(i as int)),
        decreases parts@.len() - i,
    {
        proof {
            assert(all[i as int] == parts@[i as int]@);
            assert(all.take(i + 1).drop_last() =~= all.take(i as int));
        }
        if trim_chars(parts[i].as_slice()).len() > 0 {
            let ghost prev = rows(out@);
            out.push(copy_chars(parts[i].as_slice()));
            assert(rows(out@) =~= prev.push(parts@[i as int]@));
        }
        i += 1;
    }
    assert(all.take(i as int) =~= all);
    out
}

fn assemble(secs: &Vec<Vec<char>>) -> (out: Vec<char>)
    ensures
        out@ == assembled(rows(secs@)),
{
    let m = marker_chars();
    let mut out: Vec<char> = Vec::new();
    let mut i: usize = 0;
    let ghost all = rows(secs@);
    assert(out@ =~= assembled(all.take(0)));
    while i < secs.len()
        invariant
            i <= secs@.len(),
            m@ == marker(),
            all == rows(secs@),
            out@ == assembled(all.take(i as int)),
        decreases secs@.len() - i,
    {
        proof {
            assert(all[i as int] == secs@[i as int]@);
            assert(all.take(i + 1).drop_last() =~= all.take(i as int));
        }
        push_chars(&mut out, m.as_slice());
        push_chars(&mut out, secs[i].as_slice());
        i += 1;
        assert(out@ =~= assembled(all.take(i as int)));
    }
    assert(all.take(i as int) =~= all);
    out
}

/// Brings the content within the budget; also says how many sections were dropped.
pub fn enforce_char_budget(content: String) -> (r: (usize, String))
    ensures
        r.0 == evictions(content@),
        r.1@ == budgeted(content@),
        r.1@.len() <= MEMORY_MD_MAX_CHARS,
{
    proof {
        budget_holds(content@);
    }
    let cs = chars_of(content.as_str());
    if cs.len() <= MEMORY_MD_MAX_CHARS {
        return (0, content);
    }
    let (head, parts) = preamble_and_chunks(cs.as_slice());
    let mut secs = keep_filled(&parts);
    let ghost first = rows(secs@);
    let total: usize = secs.len();
    let h: usize = head.len();
    loop
        invariant_except_break
            without_dated(h as nat, rows(secs@)) == without_dated(h as nat, first),
        invariant
            secs@.len() <= total,
        ensures
            rows(secs@) == without_dated(h as nat, first),
        decreases secs@.len(),
    {
        if chars_sum(h, &secs) || secs.len() <= 1 {
            break;
        }
        match first_dated_of(&secs) {
            Some(i) => {
                let ghost prev = rows(secs@);
                secs.remove(i);
                assert(rows(secs@) =~= prev.remove(i as int));
            },
            None => {
                break;
            },
        }
    }
    let ghost second = rows(secs@);
    loop
        invariant_except_break
            without_oldest(h as nat, rows(secs@)) == without_oldest(h as nat, second),
        invariant
            secs@.len() <= total,
        ensures
            rows(secs@) == without_oldest(h as nat, second),
        decreases secs@.len(),
    {
        if chars_sum(h, &secs) || secs.len() <= 1 {
            break;
        }
        let ghost prev = rows(secs@);
        secs.remove(0);
        assert(rows(secs@) =~= prev.skip(1));
    }
    let dropped: usize = total - secs.len();
    let body = assemble(&secs);
    let mut whole: Vec<char> = copy_chars(head.as_slice());
    push_chars(&mut whole, body.as_slice());
    assert(whole@ == preamble(content@) + assembled(surviving(content@)));
    assert(rows(secs@).len() == secs@.len());
    assert(first.len() == total);
    if whole.len() <= MEMORY_MD_MAX_CHARS {
        return (dropped, string_of(whole.as_slice()));
    }
    proof {
        lemma_remark_len();
    }
    let remark = chars_of("\n## （更早内容因超长被截断）\n");
    let mut front: Vec<char> = Vec::new();
    if h <= MEMORY_MD_MAX_CHARS && h + remark.len() <= MEMORY_MD_MAX_CHARS {
        push_chars(&mut front, head.as_slice());
    }
    push_chars(&mut front, remark.as_slice());
    let room: usize = MEMORY_MD_MAX_CHARS - front.len();
    let tail = slice_subrange(whole.as_slice(), whole.len() - room, whole.len());
    assert(tail@ =~= last_chars(whole@, room as int));
    push_chars(&mut front, tail);
    assert(front@ =~= cut_to_fit(head@, whole@));
    (
        if dropped == 0 {
            1
        } else {
            dropped
        },
        string_of(front.as_slice()),
    )
}

/// The content after `body` was appended under the heading `stamp`.
pub open spec fn appended(existing: Seq<char>, stamp: Seq<char>, body: Seq<char>) -> Seq<char> {
    let base = if is_blank(existing) {
        MEMORY_MD_HEADER@
    } else {
        existing
    };
    let ended = if base.len() > 0 && base.last() == '\n' {
        base
    } else {
        base.push('\n')
    };
    ended + "\n## "@ + stamp + seq!['\n'] + trim(body) + seq!['\n']
}

/// What is to be written to the file of a character when `body` is appended at
/// the time `stamp`: nothing where there is nothing to append.
pub fn append_memory_md(char_id: &str, existing: &str, stamp: &str, body: &str) -> (r: Result<
    Option<String>,
    String,
>)
    ensures
        is_blank(char_id@) ==> r is Err && r->Err_0@ == "缺少角色 ID"@,
        !is_blank(char_id@) ==> r is Ok && match r->Ok_0 {
            Some(c) => !is_blank(body@) && c@ == budgeted(appended(existing@, stamp@, body@))
                && c@.len() <= MEMORY_MD_MAX_CHARS,
            None => is_blank(body@),
        },
{
    if blank(char_id) {
        return Err("缺少角色 ID".to_owned());
    }
    if blank(body) {
        return Ok(None);
    }
    let b = chars_of(body);
    let mut content: Vec<char> = Vec::new();
    if blank(existing) {
        push_text(&mut content, MEMORY_MD_HEADER);
    } else {
        push_text(&mut content, existing);
    }
    if !(content.len() > 0 && content[content.len() - 1] == '\n') {
        content.push('\n');
    }
    push_text(&mut content, "\n## ");
    push_text(&mut content, stamp);
    content.push('\n');
    push_chars(&mut content, trim_chars(b.as_slice()));
    content.push('\n');
    assert(content@ =~= appended(existing@, stamp@, body@));
    let (_n, out) = enforce_char_budget(string_of(content.as_slice()));
    Ok(Some(out))
}

// ---------------------------------------------------------------------------
// Merging entries
// ---------------------------------------------------------------------------

/// The bullets that may stand before an entry.
pub open spec fn bullets() -> Seq<Seq<char>> {
    seq!["- "@, "* "@, "+ "@, "• "@, "· "@]
}

/// The line without the first of the bullets from the `k`-th on that it begins with.
pub open spec fn unbulleted(t: Seq<char>, k: int) -> Seq<char>
    decreases bullets().len() - k,
{
    if 0 <= k < bullets().len() {
        if begins(t, bullets()[k]) {
            trim(t.skip(bullets()[k].len() as int))
        } else {
            unbulleted(t, k + 1)
        }
    } else if t == "-"@ || t == "*"@ || t == "+"@ {
        Seq::<char>::empty()
    } else {
        t
    }
}

/// The line without a bullet before it and white space around it.
pub open spec fn bare(line: Seq<char>) -> Seq<char> {
    unbulleted(trim(line), 0)
}

/// Every run of white space as one space.
pub open spec fn collapsed(s: Seq<char>) -> Seq<char>
    decreases s.len(),
{
    if s.len() == 0 {
        s
    } else {
        let p = collapsed(s.drop_last());
        if !is_white(s.last()) {
            p.push(s.last())
        } else if s.len() >= 2 && is_white(s[s.len() - 2]) {
            p
        } else {
            p.push(' ')
        }
    }
}

/// Punctuation that may end an entry.
pub open spec fn is_stop(c: char) -> bool {
    c == '。' || c == '.' || c == '，' || c == ',' || c == '；' || c == ';' || c == '！' || c == '!'
}

/// `s` without the punctuation at its end.
pub open spec fn without_stops(s: Seq<char>) -> Seq<char>
    decreases s.len(),
{
    if s.len() > 0 && is_stop(s.last()) {
        without_stops(s.drop_last())
    } else {
        s
    }
}

/// What two entries must share to count as the same: the text without bullet,
/// extra white space and final punctuation.
pub open spec fn entry_key(line: Seq<char>) -> Seq<char> {
    trim(without_stops(trim(collapsed(bare(line)))))
}

fn bare_chars(line: &[char]) -> (r: Vec<char>)
    ensures
        r@ == bare(line@),
{
    let t = trim_chars(line);
    let marks = ["- ", "* ", "+ ", "• ", "· "];
    let mut k: usize = 0;
    while k < 5
        invariant
            k <= 5,
            t@ == trim(line@),
            marks@.len() == 5,
            forall|j: int| 0 <= j < 5 ==> (#[trigger] marks@[j])@ == bullets()[j],
            bullets().len() == 5,
            unbulleted(t@, k as int) == bare(line@),
        decreases 5 - k,
    {
        let b = chars_of(marks[k]);
        if starts_with_chars(t, b.as_slice()) {
            let rest = slice_subrange(t, b.len(), t.len());
            assert(rest@ =~= t@.skip(b@.len() as int));
            return copy_chars(trim_chars(rest));
        }
        k += 1;
    }
    let dash = chars_of("-");
    let star = chars_of("*");
    let plus = chars_of("+");
    if same_chars(t, dash.as_slice()) || same_chars(t, star.as_slice()) || same_chars(
        t,
        plus.as_slice(),
    ) {
        let r: Vec<char> = Vec::new();
        assert(r@ =~= Seq::<char>::empty());
        r
    } else {
        copy_chars(t)
    }
}

/// The line without a bullet before it and white space around it.
pub fn strip_bullet(line: &str) -> (r: String)
    ensures
        r@ == bare(line@),
{
    let cs = chars_of(line);
    let b = bare_chars(cs.as_slice());
    string_of(b.as_slice())
}

fn stop(c: char) -> (r: bool)
    ensures
        r == is_stop(c),
{
    c == '。' || c == '.' || c == '，' || c == ',' || c == '；' || c == ';' || c == '！' || c == '!'
}

fn collapse(cs: &[char]) -> (out: Vec<char>)
    ensures
        out@ == collapsed(cs@),
{
    let mut out: Vec<char> = Vec::new();
    let mut i: usize = 0;
    let mut spaced = false;
    assert(out@ =~= collapsed(cs@.take(0)));
    while i < cs.len()
        invariant
            i <= cs@.len(),
            out@ == collapsed(cs@.take(i as int)),
            spaced == (i > 0 && is_white(cs@[i - 1])),
        decreases cs@.len() - i,
    {
        let c = cs[i];
        proof {
            assert(cs@.take(i + 1).drop_last() =~= cs@.take(i as int));
            assert(cs@.take(i + 1).last() == c);
            if i > 0 {
                assert(cs@.take(i + 1)[i - 1] == cs@[i - 1]);
            }
        }
        if white(c) {
            if !spaced {
                out.push(' ');
            }
            spaced = true;
        } else {
            out.push(c);
            spaced = false;
        }
        i += 1;
    }
    assert(cs@.take(i as int) =~= cs@);
    out
}

fn drop_stops(cs: &[char]) -> (r: &[char])
    ensures
        r@ == without_stops(cs@),
{
    let mut j: usize = cs.len();
    assert(cs@.take(j as int) =~= cs@);
    while j > 0 && stop(cs[j - 1])
        invariant
            j <= cs@.len(),
            without_stops(cs@.take(j as int)) == without_stops(cs@),
        decreases j,
    {
        assert(cs@.take(j as int).drop_last() =~= cs@.take(j - 1));
        j -= 1;
    }
    let r = slice_subrange(cs, 0, j);
    assert(r@ =~= cs@.take(j as int));
    r
}

fn key_of(line: &[char]) -> (r: Vec<char>)
    ensures
        r@ == entry_key(line@),
{
    let b = bare_chars(line);
    let c = collapse(b.as_slice());
    let t = trim_chars(c.as_slice());
    let d = drop_stops(t);
    copy_chars(trim_chars(d))
}

/// What two entries must share to count as the same.
pub fn normalize_line(line: &str) -> (r: String)
    ensures
        r@ == entry_key(line@),
{
    let cs = chars_of(line);
    let k = key_of(cs.as_slice());
    string_of(k.as_slice())
}

/// `s` begins with the word, whatever the case of its ASCII letters.
pub open spec fn begins_word(s: Seq<char>, word: Seq<char>) -> bool {
    word.len() <= s.len() && forall|i: int| 0 <= i < word.len() ==> capital(#[trigger] s[i]) == word[i]
}

fn starts_word(s: &[char], word: &[char]) -> (r: bool)
    ensures
        r == begins_word(s@, word@),
{
    if word.len() > s.len() {
        return false;
    }
    let mut i: usize = 0;
    while i < word.len()
        invariant
            i <= word@.len() <= s@.len(),
            forall|k: int| 0 <= k < i ==> capital(#[trigger] s@[k]) == word@[k],
        decreases word@.len() - i,
    {
        if capital_of(s[i]) != word[i] {
            return false;
        }
        i += 1;
    }
    true
}

/// What stands behind the word that asks for a replacement.
pub open spec fn replace_rest(line: Seq<char>) -> Option<Seq<char>> {
    if begins_word(line, "REPLACE:"@) {
        Some(trim(line.skip(8)))
    } else if begins_word(line, "UPDATE:"@) {
        Some(trim(line.skip(7)))
    } else {
        None
    }
}

/// The old and the new entry of a request for replacement.
pub open spec fn replacement(line: Seq<char>) -> Option<(Seq<char>, Seq<char>)> {
    match replace_rest(line) {
        Some(rest) => match find(rest, "=>"@) {
            Some(i) => {
                let before = trim(rest.take(i));
                let after = trim(rest.skip(i + 2));
                if before.len() == 0 || after.len() == 0 {
                    None
                } else {
                    Some((before, after))
                }
            },
            None => None,
        },
        None => None,
    }
}

/// The text of a pair of character vectors.
pub open spec fn opt_pair(o: Option<(Vec<char>, Vec<char>)>) -> Option<(Seq<char>, Seq<char>)> {
    match o {
        Some(p) => Some((p.0@, p.1@)),
        None => None,
    }
}

fn replacement_of(line: &[char]) -> (r: Option<(Vec<char>, Vec<char>)>)
    ensures
        opt_pair(r) == replacement(line@),
{
    proof {
        reveal_strlit("REPLACE:");
        reveal_strlit("UPDATE:");
        reveal_strlit("=>");
    }
    let n: usize = line.len();
    let replace = chars_of("REPLACE:");
    let update = chars_of("UPDATE:");
    let skip: usize = if starts_word(line, replace.as_slice()) {
        8
    } else if starts_word(line, update.as_slice()) {
        7
    } else {
        return None;
    };
    let behind = slice_subrange(line, skip, n);
    assert(behind@ =~= line@.skip(skip as int));
    let rest = trim_chars(behind);
    let m: usize = rest.len();
    let arrow = chars_of("=>");
    match position_of(rest, arrow.as_slice()) {
        Some(i) => {
            let a = slice_subrange(rest, 0, i);
            assert(a@ =~= rest@.take(i as int));
            let b = slice_subrange(rest, i + 2, m);
            assert(b@ =~= rest@.skip(i + 2));
            let before = trim_chars(a);
            let after = trim_chars(b);
            if before.len() == 0 || after.len() == 0 {
                None
            } else {
                Some((copy_chars(before), copy_chars(after)))
            }
        },
        None => None,
    }
}

/// Reads `REPLACE: old => new`, or `UPDATE:` for `REPLACE:`.
pub fn parse_replace(line: &str) -> (r: Option<(String, String)>)
    ensures
        (match r {
            Some(p) => Some((p.0@, p.1@)),
            None => None,
        }) == replacement(line@),
{
    let cs = chars_of(line);
    match replacement_of(cs.as_slice()) {
        Some(p) => Some((string_of(p.0.as_slice()), string_of(p.1.as_slice()))),
        None => None,
    }
}

/// Where a merge stands.
pub struct Merge {
    /// The lines of the body.
    pub lines: Seq<Seq<char>>,
    /// The keys that count as known.
    pub known: Set<Seq<char>>,
    /// The new entries.
    pub additions: Seq<Seq<char>>,
    /// Whether a line was rewritten.
    pub replaced: bool,
}

/// The keys of the lines, without the empty one.
pub open spec fn keys_of(ls: Seq<Seq<char>>) -> Set<Seq<char>>
    decreases ls.len(),
{
    if ls.len() == 0 {
        Set::<Seq<char>>::empty()
    } else {
        let k = entry_key(ls.last());
        if k.len() == 0 {
            keys_of(ls.drop_last())
        } else {
            keys_of(ls.drop_last()).insert(k)
        }
    }
}

/// The merge before the first entry.
pub open spec fn merge_start(body: Seq<char>) -> Merge {
    let ls = lines(trim_end(body));
    Merge { lines: ls, known: keys_of(ls), additions: Seq::empty(), replaced: false }
}

/// Takes an entry whose key is neither empty nor known.
pub open spec fn take_entry(m: Merge, raw: Seq<char>) -> Merge {
    let item = bare(trim(raw));
    let key = entry_key(item);
    if item.len() == 0 || key.len() == 0 || m.known.contains(key) {
        m
    } else {
        Merge { known: m.known.insert(key), additions: m.additions.push(item), ..m }
    }
}

/// The position of the first line with that key.
pub open spec fn line_with_key(ls: Seq<Seq<char>>, key: Seq<char>) -> Option<int>
    decreases ls.len(),
{
    if ls.len() == 0 {
        None
    } else if entry_key(ls[0]) == key {
        Some(0)
    } else {
        match line_with_key(ls.skip(1), key) {
            Some(i) => Some(i + 1),
            None => None,
        }
    }
}

/// The merge after one line of the entries.
pub open spec fn merge_step(m: Merge, raw: Seq<char>) -> Merge {
    let line = trim(raw);
    if line.len() == 0 || line[0] == '#' {
        m
    } else {
        match replacement(line) {
            Some((before, after)) => {
                let target = entry_key(before);
                match line_with_key(m.lines, target) {
                    Some(i) => if target.len() > 0 {
                        Merge {
                            lines: m.lines.update(i, "- "@ + trim(after)),
                            replaced: true,
                            ..m
                        }
                    } else {
                        take_entry(m, after)
                    },
                    None => take_entry(m, after),
                }
            },
            None => take_entry(m, line),
        }
    }
}

/// The merge after all those lines.
pub open spec fn merge_lines(m: Merge, raws: Seq<Seq<char>>) -> Merge
    decreases raws.len(),
{
    if raws.len() == 0 {
        m
    } else {
        merge_step(merge_lines(m, raws.drop_last()), raws.last())
    }
}

/// The entries as list lines.
pub open spec fn bulleted(additions: Seq<Seq<char>>) -> Seq<Seq<char>> {
    additions.map_values(|a: Seq<char>| "- "@ + a)
}

/// The position of the first line that is the heading for new entries.
pub open spec fn recent_at(ls: Seq<Seq<char>>) -> Option<int>
    decreases ls.len(),
{
    if ls.len() == 0 {
        None
    } else if trim(ls[0]) == MEMORY_MD_RECENT_HEADING@ {
        Some(0)
    } else {
        match recent_at(ls.skip(1)) {
            Some(i) => Some(i + 1),
            None => None,
        }
    }
}

/// Whether a line is a heading.
pub open spec fn is_heading(line: Seq<char>) -> bool {
    trim_start(line).len() > 0 && trim_start(line)[0] == '#'
}

/// The position of the first heading from `from` on, or the end.
pub open spec fn section_end(ls: Seq<Seq<char>>, from: int) -> int
    decreases ls.len() - from,
{
    if from < 0 || from >= ls.len() {
        ls.len() as int
    } else if is_heading(ls[from]) {
        from
    } else {
        section_end(ls, from + 1)
    }
}

/// The lines with the entries at the end of the section for new entries, which is
/// made where it is missing.
pub open spec fn with_additions(ls: Seq<Seq<char>>, additions: Seq<Seq<char>>) -> Seq<Seq<char>> {
    let none = Seq::<char>::empty();
    match recent_at(ls) {
        Some(i) => {
            let end = section_end(ls, i + 1);
            let gap = if end > 0 && is_blank(ls[end - 1]) {
                Seq::<Seq<char>>::empty()
            } else {
                seq![none]
            };
            ls.take(end) + gap + bulleted(additions) + seq![none] + ls.skip(end)
        },
        None => ls + seq![none, MEMORY_MD_RECENT_HEADING@, none] + bulleted(additions),
    }
}

/// The body after the merge.
pub open spec fn merge_result(body: Seq<char>, m: Merge) -> Seq<char> {
    let nl = seq!['\n'];
    if m.additions.len() > 0 {
        trim_end(join(with_additions(m.lines, m.additions), nl))
    } else if m.replaced {
        trim_end(join(m.lines, nl))
    } else {
        trim_end(body)
    }
}

/// The consolidated body with the entries merged into it.
pub open spec fn merged(body: Seq<char>, entries: Seq<char>) -> Seq<char> {
    merge_result(body, merge_lines(merge_start(body), lines(entries)))
}

/// Whether one of the rows is the text.
fn holds(v: &Vec<Vec<char>>, key: &[char]) -> (r: bool)
    ensures
        r == rows(v@).to_set().contains(key@),
{
    let mut i: usize = 0;
    while i < v.len()
        invariant
            i <= v@.len(),
            forall|k: int| 0 <= k < i ==> #[trigger] v@[k]@ != key@,
        decreases v@.len() - i,
    {
        if same_chars(v[i].as_slice(), key) {
            assert(rows(v@)[i as int] == key@);
            return true;
        }
        i += 1;
    }
    assert forall|k: int| 0 <= k < v@.len() implies #[trigger] rows(v@)[k] != key@ by {
        assert(rows(v@)[k] == v@[k]@);
    }
    false
}

proof fn lemma_push_to_set(v: Seq<Seq<char>>, key: Seq<char>)
    ensures
        v.push(key).to_set() == v.to_set().insert(key),
{
    let a = v.push(key).to_set();
    let b = v.to_set().insert(key);
    assert forall|x: Seq<char>| a.contains(x) == b.contains(x) by {
        if b.contains(x) {
            if x == key {
                assert(v.push(key)[v.len() as int] == x);
            } else {
                let i = v.index_of(x);
                assert(v.push(key)[i] == x);
            }
        }
        if a.contains(x) {
            let i = v.push(key).index_of(x);
            if i < v.len() {
                assert(v[i] == x);
            }
        }
    }
    assert(a =~= b);
}

/// Takes an entry unless its key is empty or known.
pub fn push_unique(additions: &mut Vec<Vec<char>>, known: &mut Vec<Vec<char>>, raw: &[char])
    ensures
        forall|m: Merge|
            m.known == rows(old(known)@).to_set() && m.additions == rows(old(additions)@)
                ==> (#[trigger] take_entry(m, raw@)).known == rows(final(known)@).to_set()
                && take_entry(m, raw@).additions == rows(final(additions)@) && take_entry(
                m,
                raw@,
            ).lines == m.lines && take_entry(m, raw@).replaced == m.replaced,
{
    let item = bare_chars(trim_chars(raw));
    if item.len() == 0 {
        return;
    }
    let key = key_of(item.as_slice());
    if key.len() == 0 || holds(known, key.as_slice()) {
        return;
    }
    let ghost k0 = rows(known@);
    let ghost a0 = rows(additions@);
    let ghost key_text = key@;
    let ghost item_text = item@;
    known.push(key);
    additions.push(item);
    assert(rows(known@) =~= k0.push(key_text));
    assert(rows(additions@) =~= a0.push(item_text));
    proof {
        lemma_push_to_set(k0, key_text);
    }
}

proof fn lemma_line_with_key(ls: Seq<Seq<char>>, key: Seq<char>)
    ensures
        match line_with_key(ls, key) {
            Some(i) => 0 <= i < ls.len() && entry_key(ls[i]) == key && forall|j: int|
                0 <= j < i ==> entry_key(#[trigger] ls[j]) != key,
            None => forall|j: int| 0 <= j < ls.len() ==> entry_key(#[trigger] ls[j]) != key,
        },
    decreases ls.len(),
{
    if ls.len() > 0 && entry_key(ls[0]) != key {
        lemma_line_with_key(ls.skip(1), key);
        match line_with_key(ls.skip(1), key) {
            Some(i) => {
                assert forall|j: int| 0 <= j < i + 1 implies entry_key(#[trigger] ls[j]) != key by {
                    if j > 0 {
                        assert(ls.skip(1)[j - 1] == ls[j]);
                    }
                }
            },
            None => {
                assert forall|j: int| 0 <= j < ls.len() implies entry_key(#[trigger] ls[j])
                    != key by {
                    if j > 0 {
                        assert(ls.skip(1)[j - 1] == ls[j]);
                    }
                }
            },
        }
    }
}

fn find_line(ls: &Vec<Vec<char>>, key: &[char]) -> (r: Option<usize>)
    ensures
        match r {
            Some(i) => line_with_key(rows(ls@), key@) == Some(i as int) && i < ls@.len(),
            None => line_with_key(rows(ls@), key@) is None,
        },
{
    let mut i: usize = 0;
    let ghost all = rows(ls@);
    while i < ls.len()
        invariant
            i <= ls@.len(),
            all == rows(ls@),
            forall|j: int| 0 <= j < i ==> entry_key(#[trigger] all[j]) != key@,
        decreases ls@.len() - i,
    {
        assert(all[i as int] == ls@[i as int]@);
        let k = key_of(ls[i].as_slice());
        if same_chars(k.as_slice(), key) {
            proof {
                lemma_line_with_key(all, key@);
                match line_with_key(all, key@) {
                    Some(w) => {
                        if w < i {
                            assert(entry_key(all[w]) != key@);
                        } else if i < w {
                            assert(entry_key(all[i as int]) != key@);
                        }
                    },
                    None => assert(entry_key(all[i as int]) != key@),
                }
            }
            return Some(i);
        }
        i += 1;
    }
    proof {
        lemma_line_with_key(all, key@);
    }
    None
}

proof fn lemma_recent_at(ls: Seq<Seq<char>>)
    ensures
        match recent_at(ls) {
            Some(i) => 0 <= i < ls.len() && trim(ls[i]) == MEMORY_MD_RECENT_HEADING@ && forall|
                j: int,
            |
                0 <= j < i ==> trim(#[trigger] ls[j]) != MEMORY_MD_RECENT_HEADING@,
            None => forall|j: int|
                0 <= j < ls.len() ==> trim(#[trigger] ls[j]) != MEMORY_MD_RECENT_HEADING@,
        },
    decreases ls.len(),
{
    if ls.len() > 0 && trim(ls[0]) != MEMORY_MD_RECENT_HEADING@ {
        lemma_recent_at(ls.skip(1));
        assert forall|j: int| 1 <= j < ls.len() implies #[trigger] ls[j] == ls.skip(1)[j - 1] by {}
        match recent_at(ls.skip(1)) {
            Some(i) => {
                assert forall|j: int| 0 <= j < i + 1 implies trim(#[trigger] ls[j])
                    != MEMORY_MD_RECENT_HEADING@ by {
                    if j > 0 {
                        assert(ls.skip(1)[j - 1] == ls[j]);
                    }
                }
            },
            None => {
                assert forall|j: int| 0 <= j < ls.len() implies trim(#[trigger] ls[j])
                    != MEMORY_MD_RECENT_HEADING@ by {
                    if j > 0 {
                        assert(ls.skip(1)[j - 1] == ls[j]);
                    }
                }
            },
        }
    }
}

fn find_recent(ls: &Vec<Vec<char>>) -> (r: Option<usize>)
    ensures
        match r {
            Some(i) => recent_at(rows(ls@)) == Some(i as int) && i < ls@.len(),
            None => recent_at(rows(ls@)) is None,
        },
{
    let heading = chars_of(MEMORY_MD_RECENT_HEADING);
    let mut i: usize = 0;
    let ghost all = rows(ls@);
    while i < ls.len()
        invariant
            i <= ls@.len(),
            all == rows(ls@),
            heading@ == MEMORY_MD_RECENT_HEADING@,
            forall|j: int| 0 <= j < i ==> trim(#[trigger] all[j]) != MEMORY_MD_RECENT_HEADING@,
        decreases ls@.len() - i,
    {
        assert(all[i as int] == ls@[i as int]@);
        if same_chars(trim_chars(ls[i].as_slice()), heading.as_slice()) {
            proof {
                lemma_recent_at(all);
                match recent_at(all) {
                    Some(w) => {
                        if w < i {
                            assert(trim(all[w]) != MEMORY_MD_RECENT_HEADING@);
                        } else if i < w {
                            assert(trim(all[i as int]) != MEMORY_MD_RECENT_HEADING@);
                        }
                    },
                    None => assert(trim(all[i as int]) != MEMORY_MD_RECENT_HEADING@),
                }
            }
            return Some(i);
        }
        i += 1;
    }
    proof {
        lemma_recent_at(all);
    }
    None
}

fn find_section_end(ls: &Vec<Vec<char>>, from: usize) -> (r: usize)
    requires
        from <= ls@.len(),
    ensures
        r == section_end(rows(ls@), from as int),
        from <= r <= ls@.len(),
{
    let mut i: usize = from;
    let ghost all = rows(ls@);
    while i < ls.len()
        invariant
            from <= i <= ls@.len(),
            all == rows(ls@),
            section_end(all, i as int) == section_end(all, from as int),
        decreases ls@.len() - i,
    {
        assert(all[i as int] == ls@[i as int]@);
        let t = trim_start_chars(ls[i].as_slice());
        if t.len() > 0 && t[0] == '#' {
            return i;
        }
        i += 1;
    }
    i
}

/// Appends copies of the rows from `from` up to `to`.
fn push_rows(out: &mut Vec<Vec<char>>, v: &Vec<Vec<char>>, from: usize, to: usize)
    requires
        from <= to <= v@.len(),
    ensures
        rows(final(out)@) == rows(old(out)@) + rows(v@).subrange(from as int, to as int),
{
    let ghost start = rows(out@);
    let ghost all = rows(v@);
    let mut i: usize = from;
    assert(rows(out@) =~= start + all.subrange(from as int, from as int));
    while i < to
        invariant
            from <= i <= to <= v@.len(),
            all == rows(v@),
            rows(out@) == start + all.subrange(from as int, i as int),
        decreases to - i,
    {
        let ghost prev = rows(out@);
        out.push(copy_chars(v[i].as_slice()));
        assert(rows(out@) =~= prev.push(all[i as int]));
        i += 1;
        assert(all.subrange(from as int, i as int) =~= all.subrange(from as int, i - 1).push(
            all[i - 1],
        ));
        assert(rows(out@) =~= start + all.subrange(from as int, i as int));
    }
}

fn push_row(out: &mut Vec<Vec<char>>, s: &str)
    ensures
        rows(final(out)@) == rows(old(out)@).push(s@),
{
    let ghost prev = rows(out@);
    out.push(chars_of(s));
    assert(rows(out@) =~= prev.push(s@));
}

fn push_bulleted(out: &mut Vec<Vec<char>>, additions: &Vec<Vec<char>>)
    ensures
        rows(final(out)@) == rows(old(out)@) + bulleted(rows(additions@)),
{
    let ghost start = rows(out@);
    let ghost all = bulleted(rows(additions@));
    let mut i: usize = 0;
    assert(rows(out@) =~= start + all.take(0));
    while i < additions.len()
        invariant
            i <= additions@.len(),
            all == bulleted(rows(additions@)),
            all.len() == additions@.len(),
            rows(out@) == start + all.take(i as int),
        decreases additions@.len() - i,
    {
        let ghost prev = rows(out@);
        let mut line = chars_of("- ");
        push_chars(&mut line, additions[i].as_slice());
        assert(rows(additions@)[i as int] == additions@[i as int]@);
        assert(line@ == all[i as int]);
        out.push(line);
        assert(rows(out@) =~= prev.push(all[i as int]));
        i += 1;
        assert(all.take(i as int) =~= all.take(i - 1).push(all[i - 1]));
        assert(rows(out@) =~= start + all.take(i as int));
    }
    assert(all.take(i as int) =~= all);
}

fn add_rows(ls: &Vec<Vec<char>>, additions: &Vec<Vec<char>>) -> (out: Vec<Vec<char>>)
    ensures
        rows(out@) == with_additions(rows(ls@), rows(additions@)),
{
    proof {
        reveal_strlit("");
        assert(""@ =~= Seq::<char>::empty());
    }
    let ghost all = rows(ls@);
    let mut out: Vec<Vec<char>> = Vec::new();
    assert(rows(out@) =~= Seq::<Seq<char>>::empty());
    let n: usize = ls.len();
    match find_recent(ls) {
        Some(i) => {
            let end: usize = find_section_end(ls, i + 1);
            push_rows(&mut out, ls, 0, end);
            assert(all.subrange(0, end as int) =~= all.take(end as int));
            assert(all[end - 1] == ls@[end - 1]@);
            if trim_chars(ls[end - 1].as_slice()).len() > 0 {
                push_row(&mut out, "");
            }
            push_bulleted(&mut out, additions);
            push_row(&mut out, "");
            push_rows(&mut out, ls, end, n);
            assert(all.subrange(end as int, all.len() as int) =~= all.skip(end as int));
            assert(rows(out@) =~= with_additions(all, rows(additions@)));
        },
        None => {
            push_rows(&mut out, ls, 0, n);
            assert(all.subrange(0, all.len() as int) =~= all);
            push_row(&mut out, "");
            push_row(&mut out, MEMORY_MD_RECENT_HEADING);
            push_row(&mut out, "");
            push_bulleted(&mut out, additions);
            assert(rows(out@) =~= with_additions(all, rows(additions@)));
        },
    }
    out
}

fn known_keys(ls: &Vec<Vec<char>>) -> (out: Vec<Vec<char>>)
    ensures
        rows(out@).to_set() == keys_of(rows(ls@)),
{
    let mut out: Vec<Vec<char>> = Vec::new();
    let mut i: usize = 0;
    let ghost all = rows(ls@);
    assert(rows(out@).to_set() =~= keys_of(all.take(0)));
    while i < ls.len()
        invariant
            i <= ls@.len(),
            all == rows(ls@),
            rows(out@).to_set() == keys_of(all.take(i as int)),
        decreases ls@.len() - i,
    {
        proof {
            assert(all[i as int] == ls@[i as int]@);
            assert(all.take(i + 1).drop_last() =~= all.take(i as int));
            assert(all.take(i + 1).last() == ls@[i as int]@);
        }
        let k = key_of(ls[i].as_slice());
        if k.len() > 0 {
            let ghost prev = rows(out@);
            let ghost key = k@;
            out.push(k);
            proof {
                assert(rows(out@) =~= prev.push(key));
                lemma_push_to_set(prev, key);
            }
        }
        i += 1;
    }
    assert(all.take(i as int) =~= all);
    out
}

/// Merges the entries into the consolidated body: a request for replacement
/// rewrites the line that it names, or adds its new entry where no line has that
/// name; any other entry is added unless it is known already. New entries go to
/// the end of the section for them.
pub fn merge_entries(consolidated_body: &str, entries: &str) -> (r: String)
    ensures
        r@ == merged(consolidated_body@, entries@),
{
    let all_chars = chars_of(consolidated_body);
    let body = trim_end_chars(all_chars.as_slice());
    let mut ls = split_lines(body);
    let mut known = known_keys(&ls);
    let mut additions: Vec<Vec<char>> = Vec::new();
    let mut replaced: bool = false;
    let entry_chars = chars_of(entries);
    let raws = split_lines(entry_chars.as_slice());
    let ghost start = merge_start(consolidated_body@);
    let ghost all = rows(raws@);
    let mut i: usize = 0;
    assert(rows(additions@) =~= Seq::<Seq<char>>::empty());
    assert(merge_lines(start, all.take(0)) == start);
    while i < raws.len()
        invariant
            i <= raws@.len(),
            all == rows(raws@),
            merge_lines(start, all.take(i as int)).lines == rows(ls@),
            merge_lines(start, all.take(i as int)).known == rows(known@).to_set(),
            merge_lines(start, all.take(i as int)).additions == rows(additions@),
            merge_lines(start, all.take(i as int)).replaced == replaced,
        decreases raws@.len() - i,
    {
        let ghost m = merge_lines(start, all.take(i as int));
        proof {
            assert(all[i as int] == raws@[i as int]@);
            assert(all.take(i + 1).drop_last() =~= all.take(i as int));
            assert(all.take(i + 1).last() == raws@[i as int]@);
        }
        let line = trim_chars(raws[i].as_slice());
        if line.len() > 0 && line[0] != '#' {
            match replacement_of(line) {
                Some(p) => {
                    let target = key_of(p.0.as_slice());
                    match find_line(&ls, target.as_slice()) {
                        Some(at) if target.len() > 0 => {
                            let mut new_line = chars_of("- ");
                            push_chars(&mut new_line, trim_chars(p.1.as_slice()));
                            let ghost prev = rows(ls@);
                            let ghost text = new_line@;
                            ls.set(at, new_line);
                            assert(rows(ls@) =~= prev.update(at as int, text));
                            replaced = true;
                        },
                        _ => {
                            push_unique(&mut additions, &mut known, p.1.as_slice());
                            assert(merge_step(m, raws@[i as int]@) == take_entry(m, p.1@));
                        },
                    }
                },
                None => {
                    push_unique(&mut additions, &mut known, line);
                    assert(merge_step(m, raws@[i as int]@) == take_entry(m, line@));
                },
            }
        }
        i += 1;
    }
    assert(all.take(i as int) =~= all);
    let nl = vec!['\n'];
    assert(nl@ =~= seq!['\n']);
    if additions.len() == 0 {
        assert(rows(additions@).len() == 0);
        if replaced {
            let j = join_chars(&ls, nl.as_slice());
            string_of(trim_end_chars(j.as_slice()))
        } else {
            string_of(body)
        }
    } else {
        assert(rows(additions@).len() > 0);
        let out = add_rows(&ls, &additions);
        let j = join_chars(&out, nl.as_slice());
        string_of(trim_end_chars(j.as_slice()))
    }
}

// ---------------------------------------------------------------------------
// Laws of the merge
// ---------------------------------------------------------------------------

/// The merge keeps the number of lines, and what is known is what was known and
/// the keys of the new entries.
pub proof fn merge_knows_additions(m: Merge, raws: Seq<Seq<char>>)
    requires
        m.additions.len() == 0,
    ensures
        merge_lines(m, raws).lines.len() == m.lines.len(),
        forall|k: Seq<char>|
            #[trigger] merge_lines(m, raws).known.contains(k) <==> m.known.contains(k) || exists|
                i: int,
            |
                0 <= i < merge_lines(m, raws).additions.len() && entry_key(
                    #[trigger] merge_lines(m, raws).additions[i],
                ) == k,
    decreases raws.len(),
{
    if raws.len() > 0 {
        let p = merge_lines(m, raws.drop_last());
        let n = merge_lines(m, raws);
        merge_knows_additions(m, raws.drop_last());
        lemma_step_shape(p, raws.last());
        assert forall|k: Seq<char>| #[trigger] n.known.contains(k) <==> m.known.contains(k)
            || exists|i: int| 0 <= i < n.additions.len() && entry_key(#[trigger] n.additions[i])
            == k by {
            assert(p.known.contains(k) <==> m.known.contains(k) || exists|i: int|
                0 <= i < p.additions.len() && entry_key(#[trigger] p.additions[i]) == k);
            if n.additions != p.additions {
                let last = n.additions.last();
                if entry_key(last) == k {
                    assert(n.additions[n.additions.len() - 1] == last);
                }
                if p.known.contains(k) && !m.known.contains(k) {
                    let i = choose|i: int|
                        0 <= i < p.additions.len() && entry_key(#[trigger] p.additions[i]) == k;
                    assert(n.additions[i] == p.additions[i]);
                }
                if exists|i: int|
                    0 <= i < n.additions.len() && entry_key(#[trigger] n.additions[i]) == k {
                    let i = choose|i: int|
                        0 <= i < n.additions.len() && entry_key(#[trigger] n.additions[i]) == k;
                    if i < p.additions.len() {
                        assert(p.additions[i] == n.additions[i]);
                    }
                }
            }
        }
    }
}

/// One step either adds nothing, or one entry whose key was not known.
proof fn lemma_step_shape(m: Merge, raw: Seq<char>)
    ensures
        ({
            let n = merge_step(m, raw);
            &&& n.lines.len() == m.lines.len()
            &&& (n.additions == m.additions && n.known == m.known) || (n.additions.len()
                == m.additions.len() + 1 && n.additions.drop_last() == m.additions
                && !m.known.contains(entry_key(n.additions.last())) && n.known
                == m.known.insert(entry_key(n.additions.last())))
        }),
{
    let line = trim(raw);
    lemma_take_shape(m, line);
    match replacement(line) {
        Some((before, after)) => {
            lemma_take_shape(m, after);
            lemma_line_with_key(m.lines, entry_key(before));
        },
        None => {},
    }
}

proof fn lemma_take_shape(m: Merge, raw: Seq<char>)
    ensures
        ({
            let n = take_entry(m, raw);
            &&& n.lines == m.lines
            &&& (n.additions == m.additions && n.known == m.known) || (n.additions.len()
                == m.additions.len() + 1 && n.additions.drop_last() == m.additions
                && !m.known.contains(entry_key(n.additions.last())) && n.known
                == m.known.insert(entry_key(n.additions.last())))
        }),
{
    let item = bare(trim(raw));
    assert(m.additions.push(item).drop_last() =~= m.additions);
}

/// No new entry repeats a line of the body or another new entry.
pub proof fn merge_adds_no_duplicate(m: Merge, raws: Seq<Seq<char>>)
    requires
        m.additions.len() == 0,
    ensures
        forall|i: int|
            0 <= i < merge_lines(m, raws).additions.len() ==> !m.known.contains(
                entry_key(#[trigger] merge_lines(m, raws).additions[i]),
            ),
        forall|i: int, j: int|
            0 <= i < j < merge_lines(m, raws).additions.len() ==> entry_key(
                #[trigger] merge_lines(m, raws).additions[i],
            ) != entry_key(#[trigger] merge_lines(m, raws).additions[j]),
    decreases raws.len(),
{
    if raws.len() > 0 {
        let p = merge_lines(m, raws.drop_last());
        let n = merge_lines(m, raws);
        merge_adds_no_duplicate(m, raws.drop_last());
        merge_knows_additions(m, raws.drop_last());
        lemma_step_shape(p, raws.last());
        if n.additions != p.additions {
            let last = n.additions.len() - 1;
            assert forall|i: int| 0 <= i < n.additions.len() implies !m.known.contains(
                entry_key(#[trigger] n.additions[i]),
            ) by {
                if i < last {
                    assert(n.additions[i] == p.additions[i]);
                } else if m.known.contains(entry_key(n.additions[i])) {
                    assert(p.known.contains(entry_key(n.additions[i])));
                }
            }
            assert forall|i: int, j: int| 0 <= i < j < n.additions.len() implies entry_key(
                #[trigger] n.additions[i],
            ) != entry_key(#[trigger] n.additions[j]) by {
                assert(n.additions[i] == p.additions[i]);
                if j < last {
                    assert(n.additions[j] == p.additions[j]);
                } else {
                    assert(p.known.contains(entry_key(p.additions[i])));
                }
            }
        }
    }
}

/// An entry is never lost without a trace: a line that asks for no replacement
/// and has a key is known after the merge.
pub proof fn merge_keeps_every_entry(m: Merge, raws: Seq<Seq<char>>, i: int)
    requires
        0 <= i < raws.len(),
        trim(raws[i]).len() > 0,
        trim(raws[i])[0] != '#',
        replacement(trim(raws[i])) is None,
        bare(trim(raws[i])).len() > 0,
        entry_key(bare(trim(raws[i]))).len() > 0,
    ensures
        merge_lines(m, raws).known.contains(entry_key(bare(trim(raws[i])))),
    decreases raws.len(),
{
    let p = merge_lines(m, raws.drop_last());
    lemma_step_shape(p, raws.last());
    if i == raws.len() - 1 {
        crate::text::lemma_trim(raws[i]);
    } else {
        assert(raws.drop_last()[i] == raws[i]);
        merge_keeps_every_entry(m, raws.drop_last(), i);
    }
}

/// Blank lines and headings change nothing.
pub proof fn merge_ignores_blank_and_headings(body: Seq<char>, entries: Seq<char>)
    requires
        forall|i: int|
            0 <= i < lines(entries).len() ==> trim(#[trigger] lines(entries)[i]).len() == 0 || trim(
                lines(entries)[i],
            )[0] == '#',
    ensures
        merged(body, entries) == trim_end(body),
{
    lemma_merge_ignores(merge_start(body), lines(entries));
}

proof fn lemma_merge_ignores(m: Merge, raws: Seq<Seq<char>>)
    requires
        forall|i: int|
            0 <= i < raws.len() ==> trim(#[trigger] raws[i]).len() == 0 || trim(raws[i])[0] == '#',
    ensures
        merge_lines(m, raws) == m,
    decreases raws.len(),
{
    if raws.len() > 0 {
        assert forall|i: int| 0 <= i < raws.drop_last().len() implies trim(
            #[trigger] raws.drop_last()[i],
        ).len() == 0 || trim(raws.drop_last()[i])[0] == '#' by {
            assert(raws.drop_last()[i] == raws[i]);
        }
        lemma_merge_ignores(m, raws.drop_last());
        assert(raws.last() == raws[raws.len() - 1]);
    }
}

} // verus!
