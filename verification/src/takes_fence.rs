//! Tables of claims about a subject: rows are only ever added, and a new row for
//! a claim supersedes the row that held before.

use crate::assoc::{distinct, first_with, lookup, lookup_after_put, put, Assoc};
use crate::text::{chars_of, count_bytes, decimal, join, join_strings, lower, lowercase, push_decimal,
    same, string_of, texts, trim, trimmed};
use vstd::prelude::*;
use vstd::slice::*;
use vstd::string::*;

verus! {

/// Whether a row still holds.
#[derive(Debug, Clone, Copy, PartialEq, Eq, Structural)]
pub enum TakeStatus {
    Active,
    /// A later row took its place.
    Superseded,
}

/// A row of a table.
#[derive(Debug)]
pub struct TakesRow {
    /// From one up, never used twice.
    pub row_num: u32,
    pub subject: String,
    pub claim: String,
    pub value: String,
    pub status: TakeStatus,
    /// The memory that the row comes from.
    pub source_memory_id: String,
    pub created_at: i64,
    pub superseded_at: Option<i64>,
    /// The row that took its place.
    pub superseded_by: Option<u32>,
}

/// What a row is.
pub struct RowView {
    pub row_num: u32,
    pub subject: Seq<char>,
    pub claim: Seq<char>,
    pub value: Seq<char>,
    pub status: TakeStatus,
    pub source_memory_id: Seq<char>,
    pub created_at: i64,
    pub superseded_at: Option<i64>,
    pub superseded_by: Option<u32>,
}

impl View for TakesRow {
    type V = RowView;

    open spec fn view(&self) -> RowView {
        RowView {
            row_num: self.row_num,
            subject: self.subject@,
            claim: self.claim@,
            value: self.value@,
            status: self.status,
            source_memory_id: self.source_memory_id@,
            created_at: self.created_at,
            superseded_at: self.superseded_at,
            superseded_by: self.superseded_by,
        }
    }
}

impl Clone for TakesRow {
    fn clone(&self) -> (r: TakesRow)
        ensures
            r@ == self@,
    {
        TakesRow {
            row_num: self.row_num,
            subject: self.subject.clone(),
            claim: self.claim.clone(),
            value: self.value.clone(),
            status: self.status,
            source_memory_id: self.source_memory_id.clone(),
            created_at: self.created_at,
            superseded_at: self.superseded_at,
            superseded_by: self.superseded_by,
        }
    }
}

/// The table of a subject.
#[derive(Debug)]
pub struct TakesTable {
    pub subject: String,
    /// In the order of their numbers.
    pub rows: Vec<TakesRow>,
    /// The number of the next row.
    pub next_row_num: u32,
}

/// What a table is.
pub struct TableView {
    pub subject: Seq<char>,
    pub rows: Seq<RowView>,
    pub next_row_num: u32,
}

/// What the rows of a list are.
pub open spec fn row_views(v: Seq<TakesRow>) -> Seq<RowView> {
    v.map_values(|r: TakesRow| r@)
}

impl View for TakesTable {
    type V = TableView;

    open spec fn view(&self) -> TableView {
        TableView {
            subject: self.subject@,
            rows: row_views(self.rows@),
            next_row_num: self.next_row_num,
        }
    }
}

/// `s` without spaces, tabs and line feeds.
pub open spec fn without_gaps(s: Seq<char>) -> Seq<char> {
    s.filter(|c: char| !(c == ' ' || c == '\t' || c == '\n'))
}

/// What two claims must share to be about the same thing.
pub open spec fn claim_key(claim: Seq<char>) -> Seq<char> {
    without_gaps(lowercase(trim(claim)))
}

/// What two claims must share to be about the same thing.
pub fn normalize_claim(claim: &str) -> (r: String)
    ensures
        r@ == claim_key(claim@),
{
    let t = trimmed(claim);
    let l = lower(t.as_str());
    let cs = chars_of(l.as_str());
    let mut out: Vec<char> = Vec::new();
    let mut i: usize = 0;
    proof {
        reveal(Seq::filter);
    }
    let ghost all = l@;
    assert(out@ =~= without_gaps(all.take(0)));
    while i < cs.len()
        invariant
            i <= cs@.len(),
            cs@ == all,
            out@ == without_gaps(all.take(i as int)),
        decreases cs@.len() - i,
    {
        let c = cs[i];
        proof {
            reveal(Seq::filter);
            assert(all.take(i + 1).drop_last() =~= all.take(i as int));
            assert(all.take(i + 1).last() == c);
        }
        if !(c == ' ' || c == '\t' || c == '\n') {
            out.push(c);
        }
        i += 1;
    }
    assert(all.take(i as int) =~= all);
    string_of(out.as_slice())
}

/// The row after a row with the number `n` for the claim was added at `at`.
pub open spec fn superseded(r: RowView, key: Seq<char>, n: u32, at: i64) -> RowView {
    if r.status == TakeStatus::Active && claim_key(r.claim) == key {
        RowView {
            status: TakeStatus::Superseded,
            superseded_at: Some(at),
            superseded_by: Some(n),
            ..r
        }
    } else {
        r
    }
}

/// The table after a row was added.
pub open spec fn with_take(
    t: TableView,
    claim: Seq<char>,
    value: Seq<char>,
    source: Seq<char>,
    at: i64,
) -> TableView {
    let n = t.next_row_num;
    TableView {
        subject: t.subject,
        rows: t.rows.map_values(|r: RowView| superseded(r, claim_key(claim), n, at)).push(
            RowView {
                row_num: n,
                subject: t.subject,
                claim,
                value,
                status: TakeStatus::Active,
                source_memory_id: source,
                created_at: at,
                superseded_at: None,
                superseded_by: None,
            },
        ),
        next_row_num: (n + 1) as u32,
    }
}

/// The rows that still hold.
pub open spec fn active(rows: Seq<RowView>) -> Seq<RowView> {
    rows.filter(|r: RowView| r.status == TakeStatus::Active)
}

/// A row for the model: number, claim and value.
pub open spec fn compact_row(r: RowView) -> Seq<char> {
    "[row="@ + decimal(r.row_num as nat) + "] "@ + r.claim + "="@ + r.value
}

/// The rows that still hold, for the model.
pub open spec fn compact(t: TableView) -> Seq<char> {
    join(active(t.rows).map_values(|r: RowView| compact_row(r)), "; "@)
}

/// The first twelve bytes of an identifier.
pub open spec fn short_source(id: Seq<char>) -> Seq<char> {
    let b = vstd::utf8::encode_utf8(id);
    vstd::utf8::decode_utf8(
        b.take(
            if b.len() < 12 {
                b.len() as int
            } else {
                12
            },
        ),
    )
}

/// Whether the twelfth byte of an identifier, if it has one, ends a character.
pub open spec fn can_shorten(id: Seq<char>) -> bool {
    let b = vstd::utf8::encode_utf8(id);
    vstd::utf8::is_char_boundary(
        b,
        if b.len() < 12 {
            b.len() as int
        } else {
            12
        },
    )
}

/// A text that no longer holds, struck through.
pub open spec fn shown(s: Seq<char>, status: TakeStatus) -> Seq<char> {
    match status {
        TakeStatus::Active => s,
        TakeStatus::Superseded => "~~"@ + s + "~~"@,
    }
}

/// The name of a status.
pub open spec fn status_name(status: TakeStatus) -> Seq<char> {
    match status {
        TakeStatus::Active => "active"@,
        TakeStatus::Superseded => "superseded"@,
    }
}

/// A line of the markdown table.
pub open spec fn markdown_row(r: RowView) -> Seq<char> {
    "| "@ + decimal(r.row_num as nat) + " | "@ + shown(r.claim, r.status) + " | "@ + shown(
        r.value,
        r.status,
    ) + " | "@ + status_name(r.status) + " | "@ + short_source(r.source_memory_id) + " |\n"@
}

/// The lines of the markdown table.
pub open spec fn markdown_rows(rows: Seq<RowView>) -> Seq<char>
    decreases rows.len(),
{
    if rows.len() == 0 {
        Seq::<char>::empty()
    } else {
        markdown_rows(rows.drop_last()) + markdown_row(rows.last())
    }
}

/// The table in markdown; nothing for a table without rows.
pub open spec fn markdown(t: TableView) -> Seq<char> {
    if t.rows.len() == 0 {
        Seq::<char>::empty()
    } else {
        "### Takes: "@ + t.subject + "\n\n"@ + "| # | claim | value | status | source |\n"@
            + "|---|-------|-------|--------|--------|\n"@ + markdown_rows(t.rows)
    }
}

fn append_shown(out: &mut String, s: &str, status: TakeStatus)
    ensures
        final(out)@ == old(out)@ + shown(s@, status),
{
    let ghost start = out@;
    match status {
        TakeStatus::Active => {
            out.append(s);
        },
        TakeStatus::Superseded => {
            out.append("~~");
            out.append(s);
            out.append("~~");
        },
    }
    assert(out@ =~= start + shown(s@, status));
}

/// The first twelve bytes of an identifier.
fn source_head(id: &str) -> (r: &str)
    requires
        can_shorten(id@),
    ensures
        r@ == short_source(id@),
{
    let bytes: usize = count_bytes(id);
    let n: usize = if bytes < 12 {
        bytes
    } else {
        12
    };
    let (head, _rest) = id.split_at(n);
    proof {
        let b = vstd::utf8::encode_utf8(id@);
        assert(b.subrange(0, n as int) =~= b.take(n as int));
        vstd::utf8::encode_utf8_decode_utf8(head@);
    }
    head
}

/// A line of the markdown table.
fn markdown_line(row: &TakesRow) -> (out: String)
    requires
        can_shorten(row@.source_memory_id),
    ensures
        out@ == markdown_row(row@),
{
    let mut out: String = "| ".to_owned();
    push_decimal(&mut out, row.row_num as u64);
    out.append(" | ");
    append_shown(&mut out, row.claim.as_str(), row.status);
    out.append(" | ");
    append_shown(&mut out, row.value.as_str(), row.status);
    out.append(" | ");
    match row.status {
        TakeStatus::Active => {
            out.append("active");
        },
        TakeStatus::Superseded => {
            out.append("superseded");
        },
    }
    out.append(" | ");
    out.append(source_head(row.source_memory_id.as_str()));
    out.append(" |\n");
    out
}

impl TakesTable {
    /// An empty table.
    pub fn new(subject: &str) -> (r: TakesTable)
        ensures
            r@ == (TableView { subject: subject@, rows: Seq::empty(), next_row_num: 1 }),
    {
        let r = TakesTable { subject: subject.to_owned(), rows: Vec::new(), next_row_num: 1 };
        assert(r@.rows =~= Seq::<RowView>::empty());
        r
    }

    /// A copy of the table.
    pub fn dup(&self) -> (r: TakesTable)
        ensures
            r@ == self@,
    {
        let mut rows: Vec<TakesRow> = Vec::new();
        let mut i: usize = 0;
        while i < self.rows.len()
            invariant
                i <= self.rows@.len(),
                rows@.len() == i,
                forall|j: int| 0 <= j < i ==> (#[trigger] rows@[j])@ == self.rows@[j]@,
            decreases self.rows@.len() - i,
        {
            rows.push(self.rows[i].clone());
            i += 1;
        }
        assert(row_views(rows@) =~= row_views(self.rows@));
        TakesTable { subject: self.subject.clone(), rows, next_row_num: self.next_row_num }
    }

    /// Adds a row and supersedes the rows that held for the same claim; the number
    /// of the new row comes back.
    pub fn add_take(&mut self, claim: &str, value: &str, source_memory_id: &str, created_at: i64) -> (n:
        u32)
        requires
            old(self)@.next_row_num < u32::MAX,
        ensures
            n == old(self)@.next_row_num,
            final(self)@ == with_take(old(self)@, claim@, value@, source_memory_id@, created_at),
    {
        let n: u32 = self.next_row_num;
        let key = normalize_claim(claim);
        let ghost was = self@;
        let ghost raw = self.rows@;
        let mut i: usize = 0;
        while i < self.rows.len()
            invariant
                i <= self.rows@.len(),
                self.rows@.len() == raw.len(),
                self.subject@ == was.subject,
                self.next_row_num == n,
                key@ == claim_key(claim@),
                forall|j: int|
                    0 <= j < i ==> (#[trigger] self.rows@[j])@ == superseded(
                        raw[j]@,
                        claim_key(claim@),
                        n,
                        created_at,
                    ),
                forall|j: int| i <= j < raw.len() ==> #[trigger] self.rows@[j] == raw[j],
            decreases self.rows@.len() - i,
        {
            let k = normalize_claim(self.rows[i].claim.as_str());
            if self.rows[i].status == TakeStatus::Active && same(k.as_str(), key.as_str()) {
                let mut row = self.rows[i].clone();
                row.status = TakeStatus::Superseded;
                row.superseded_at = Some(created_at);
                row.superseded_by = Some(n);
                self.rows.set(i, row);
            }
            i += 1;
        }
        self.rows.push(
            TakesRow {
                row_num: n,
                subject: self.subject.clone(),
                claim: claim.to_owned(),
                value: value.to_owned(),
                status: TakeStatus::Active,
                source_memory_id: source_memory_id.to_owned(),
                created_at,
                superseded_at: None,
                superseded_by: None,
            },
        );
        self.next_row_num = n + 1;
        assert(self@.rows =~= with_take(was, claim@, value@, source_memory_id@, created_at).rows);
        n
    }

    /// Copies of the rows that still hold.
    pub fn active_takes(&self) -> (out: Vec<TakesRow>)
        ensures
            row_views(out@) == active(self@.rows),
    {
        let mut out: Vec<TakesRow> = Vec::new();
        let ghost all = self@.rows;
        let mut i: usize = 0;
        proof {
            reveal(Seq::filter);
        }
        assert(row_views(out@) =~= active(all.take(0)));
        while i < self.rows.len()
            invariant
                i <= self.rows@.len(),
                all == row_views(self.rows@),
                row_views(out@) == active(all.take(i as int)),
            decreases self.rows@.len() - i,
        {
            proof {
                reveal(Seq::filter);
                assert(all.take(i + 1).drop_last() =~= all.take(i as int));
                assert(all.take(i + 1).last() == self.rows@[i as int]@);
            }
            if self.rows[i].status == TakeStatus::Active {
                let ghost prev = row_views(out@);
                out.push(self.rows[i].clone());
                assert(row_views(out@) =~= prev.push(self.rows@[i as int]@));
            }
            i += 1;
        }
        assert(all.take(i as int) =~= all);
        out
    }

    /// The table in markdown, superseded rows struck through.
    pub fn render_markdown(&self) -> (r: String)
        requires
            forall|i: int|
                0 <= i < self@.rows.len() ==> can_shorten(
                    (#[trigger] self@.rows[i]).source_memory_id,
                ),
        ensures
            r@ == markdown(self@),
    {
        if self.rows.len() == 0 {
            let r: String = String::new();
            assert(r@ =~= markdown(self@));
            return r;
        }
        let mut out: String = "### Takes: ".to_owned();
        out.append(self.subject.as_str());
        out.append("\n\n");
        out.append("| # | claim | value | status | source |\n");
        out.append("|---|-------|-------|--------|--------|\n");
        let ghost start = out@;
        let ghost all = self@.rows;
        let mut i: usize = 0;
        assert(out@ =~= start + markdown_rows(all.take(0)));
        while i < self.rows.len()
            invariant
                i <= self.rows@.len(),
                all == self@.rows,
                forall|k: int|
                    0 <= k < all.len() ==> can_shorten((#[trigger] all[k]).source_memory_id),
                out@ == start + markdown_rows(all.take(i as int)),
            decreases self.rows@.len() - i,
        {
            let row = &self.rows[i];
            proof {
                assert(all[i as int] == row@);
                assert(all.take(i + 1).drop_last() =~= all.take(i as int));
                assert(all.take(i + 1).last() == row@);
            }
            let ghost o = out@;
            let line = markdown_line(row);
            out.append(line.as_str());
            i += 1;
            assert(out@ =~= start + markdown_rows(all.take(i as int)));
        }
        assert(all.take(i as int) =~= all);
        assert(out@ =~= markdown(self@));
        out
    }

    /// The rows that still hold, for the model.
    pub fn render_compact(&self) -> (r: String)
        ensures
            r@ == compact(self@),
    {
        let rows = self.active_takes();
        let ghost all = active(self@.rows).map_values(|r: RowView| compact_row(r));
        let mut parts: Vec<String> = Vec::new();
        let mut i: usize = 0;
        assert(texts(parts@) =~= all.take(0));
        while i < rows.len()
            invariant
                i <= rows@.len(),
                row_views(rows@) == active(self@.rows),
                all == active(self@.rows).map_values(|r: RowView| compact_row(r)),
                texts(parts@) == all.take(i as int),
            decreases rows@.len() - i,
        {
            let row = &rows[i];
            let mut p: String = "[row=".to_owned();
            push_decimal(&mut p, row.row_num as u64);
            p.append("] ");
            p.append(row.claim.as_str());
            p.append("=");
            p.append(row.value.as_str());
            assert(row_views(rows@)[i as int] == row@);
            assert(p@ =~= compact_row(row@));
            assert(all[i as int] == p@);
            let ghost prev = texts(parts@);
            let ghost text = p@;
            parts.push(p);
            assert(texts(parts@) =~= prev.push(text));
            i += 1;
            assert(all.take(i as int) =~= all.take(i - 1).push(all[i - 1]));
        }
        assert(all.take(i as int) =~= all);
        join_strings(&parts, "; ")
    }
}

// ---------------------------------------------------------------------------
// Laws of a table
// ---------------------------------------------------------------------------

/// The rows are numbered from one up, and the next number follows the last.
pub open spec fn numbered(t: TableView) -> bool {
    &&& t.next_row_num == t.rows.len() + 1
    &&& forall|i: int| 0 <= i < t.rows.len() ==> (#[trigger] t.rows[i]).row_num == i + 1
}

/// Of two rows for one claim at most one holds.
pub open spec fn single_active(t: TableView) -> bool {
    forall|i: int, j: int|
        0 <= i < j < t.rows.len() && (#[trigger] t.rows[i]).status == TakeStatus::Active && (
        #[trigger] t.rows[j]).status == TakeStatus::Active ==> claim_key(t.rows[i].claim)
            != claim_key(t.rows[j].claim)
}

/// Row numbers are never used twice: an added row keeps the numbering.
pub proof fn numbering_kept(t: TableView, claim: Seq<char>, value: Seq<char>, source: Seq<char>, at: i64)
    requires
        numbered(t),
        t.next_row_num < u32::MAX,
    ensures
        numbered(with_take(t, claim, value, source, at)),
{
    let u = with_take(t, claim, value, source, at);
    assert forall|i: int| 0 <= i < u.rows.len() implies (#[trigger] u.rows[i]).row_num == i + 1 by {
        if i < t.rows.len() {
            assert(u.rows[i] == superseded(t.rows[i], claim_key(claim), t.next_row_num, at));
        }
    }
}

/// Rows are only added: every earlier row stays in its place with its number,
/// claim, value, source and time, and its status at most turns to superseded.
pub proof fn rows_never_leave(
    t: TableView,
    claim: Seq<char>,
    value: Seq<char>,
    source: Seq<char>,
    at: i64,
    i: int,
)
    requires
        0 <= i < t.rows.len(),
    ensures
        with_take(t, claim, value, source, at).rows.len() == t.rows.len() + 1,
        ({
            let a = t.rows[i];
            let b = with_take(t, claim, value, source, at).rows[i];
            a.row_num == b.row_num && a.claim == b.claim && a.value == b.value && a.source_memory_id
                == b.source_memory_id && a.created_at == b.created_at && (b == a || (a.status
                == TakeStatus::Active && b.status == TakeStatus::Superseded && b.superseded_by
                == Some(t.next_row_num) && b.superseded_at == Some(at)))
        }),
{
}

/// After a row was added it is the only one that holds for its claim, and a table
/// with at most one holding row for every claim stays one.
pub proof fn newest_take_holds(
    t: TableView,
    claim: Seq<char>,
    value: Seq<char>,
    source: Seq<char>,
    at: i64,
)
    requires
        single_active(t),
    ensures
        single_active(with_take(t, claim, value, source, at)),
        with_take(t, claim, value, source, at).rows.last().status == TakeStatus::Active,
        with_take(t, claim, value, source, at).rows.last().value == value,
        forall|i: int|
            0 <= i < t.rows.len() && claim_key(t.rows[i].claim) == claim_key(claim) ==> (
            #[trigger] with_take(t, claim, value, source, at).rows[i]).status
                == TakeStatus::Superseded,
{
    let u = with_take(t, claim, value, source, at);
    let key = claim_key(claim);
    assert forall|i: int| 0 <= i < t.rows.len() implies #[trigger] u.rows[i] == superseded(
        t.rows[i],
        key,
        t.next_row_num,
        at,
    ) by {}
    assert forall|i: int, j: int|
        0 <= i < j < u.rows.len() && (#[trigger] u.rows[i]).status == TakeStatus::Active && (
        #[trigger] u.rows[j]).status == TakeStatus::Active implies claim_key(u.rows[i].claim)
        != claim_key(u.rows[j].claim) by {
        if j < t.rows.len() {
            assert(t.rows[i].status == TakeStatus::Active);
            assert(t.rows[j].status == TakeStatus::Active);
        }
    }
}

// ---------------------------------------------------------------------------
// The tables of all subjects
// ---------------------------------------------------------------------------

/// The tables by subject.
pub struct TakesFence {
    pub tables: Assoc<TakesTable>,
}

/// The table of a subject, if it has one.
pub open spec fn table_of(s: Seq<(Seq<char>, TakesTable)>, subject: Seq<char>) -> Option<TableView> {
    match lookup(s, subject) {
        Some(t) => Some(t@),
        None => None,
    }
}

/// The table of a subject, empty where it has none.
pub open spec fn table_or_new(s: Seq<(Seq<char>, TakesTable)>, subject: Seq<char>) -> TableView {
    match lookup(s, subject) {
        Some(t) => t@,
        None => TableView { subject, rows: Seq::empty(), next_row_num: 1 },
    }
}

/// The rows of all tables together.
pub open spec fn rows_in(s: Seq<(Seq<char>, TakesTable)>) -> nat
    decreases s.len(),
{
    if s.len() == 0 {
        0
    } else {
        rows_in(s.drop_last()) + s.last().1@.rows.len()
    }
}

/// The claim under which a memory as a whole is noted.
pub open spec fn noted_value(content: Seq<char>) -> Seq<char> {
    if content.len() > 80 {
        content.take(79).push('…')
    } else {
        content
    }
}

proof fn lemma_rows_update(s: Seq<(Seq<char>, TakesTable)>, i: int, e: (Seq<char>, TakesTable))
    requires
        0 <= i < s.len(),
    ensures
        rows_in(s.update(i, e)) + s[i].1@.rows.len() == rows_in(s) + e.1@.rows.len(),
    decreases s.len(),
{
    let t = s.update(i, e);
    if i == s.len() - 1 {
        assert(t.drop_last() =~= s.drop_last());
    } else {
        assert(t.drop_last() =~= s.drop_last().update(i, e));
        lemma_rows_update(s.drop_last(), i, e);
    }
}

/// What the tables of a list are, by subject.
pub open spec fn table_views(s: Seq<(Seq<char>, TakesTable)>) -> Seq<(Seq<char>, TableView)> {
    s.map_values(|e: (Seq<char>, TakesTable)| (e.0, e.1@))
}

proof fn lemma_table_views_put(s: Seq<(Seq<char>, TakesTable)>, subject: Seq<char>, t: TakesTable)
    ensures
        table_views(put(s, subject, t)) == put(table_views(s), subject, t@),
    decreases s.len(),
{
    let v = table_views(s);
    if s.len() == 0 {
        assert(table_views(put(s, subject, t)) =~= put(v, subject, t@));
    } else {
        assert(v.skip(1) =~= table_views(s.skip(1)));
        lemma_table_views_put(s.skip(1), subject, t);
        if s[0].0 == subject {
            assert(table_views(put(s, subject, t)) =~= put(v, subject, t@));
        } else {
            assert(table_views(seq![s[0]] + put(s.skip(1), subject, t)) =~= seq![v[0]] + table_views(
                put(s.skip(1), subject, t),
            ));
        }
    }
}

impl TakesFence {
    /// No tables.
    pub fn new() -> (r: TakesFence)
        ensures
            r.tables@ == Seq::<(Seq<char>, TakesTable)>::empty(),
    {
        TakesFence { tables: Assoc::new() }
    }

    /// Adds a row to the table of the subject, which is made where it is missing.
    pub fn add_take(
        &mut self,
        subject: &str,
        claim: &str,
        value: &str,
        source_memory_id: &str,
        created_at: i64,
    ) -> (n: u32)
        requires
            table_or_new(old(self).tables@, subject@).next_row_num < u32::MAX,
        ensures
            n == table_or_new(old(self).tables@, subject@).next_row_num,
            table_of(final(self).tables@, subject@) == Some(
                with_take(
                    table_or_new(old(self).tables@, subject@),
                    claim@,
                    value@,
                    source_memory_id@,
                    created_at,
                ),
            ),
            forall|s: Seq<char>|
                s != subject@ ==> #[trigger] table_of(final(self).tables@, s) == table_of(
                    old(self).tables@,
                    s,
                ),
            final(self).tables@.len() == old(self).tables@.len() + (if table_of(
                old(self).tables@,
                subject@,
            ) is Some {
                0int
            } else {
                1int
            }),
            table_views(final(self).tables@) == put(
                table_views(old(self).tables@),
                subject@,
                with_take(
                    table_or_new(old(self).tables@, subject@),
                    claim@,
                    value@,
                    source_memory_id@,
                    created_at,
                ),
            ),
            distinct(final(self).tables@),
            rows_in(final(self).tables@) == rows_in(old(self).tables@) + 1,
    {
        let mut table = match self.tables.get(subject) {
            Some(t) => t.dup(),
            None => TakesTable::new(subject),
        };
        let ghost was = self.tables@;
        let n: u32 = table.add_take(claim, value, source_memory_id, created_at);
        proof {
            crate::assoc::lemma_first_with(was, subject@);
            crate::assoc::put_shape(was, subject@, table, first_with(was, subject@));
            lookup_after_put(was, subject@, table, subject@);
            lemma_table_views_put(was, subject@, table);
            let at = first_with(was, subject@);
            if at < was.len() {
                lemma_rows_update(was, at, (subject@, table));
            } else {
                assert(was.push((subject@, table)).drop_last() =~= was);
            }
            assert forall|s: Seq<char>| s != subject@ implies #[trigger] table_of(
                put(was, subject@, table),
                s,
            ) == table_of(was, s) by {
                lookup_after_put(was, subject@, table, s);
            }
        }
        self.tables.insert(subject, table);
        n
    }

    /// The rows of the subject that still hold, for the model.
    pub fn render_compact(&self, subject: &str) -> (r: String)
        ensures
            r@ == (match table_of(self.tables@, subject@) {
                Some(t) => compact(t),
                None => Seq::<char>::empty(),
            }),
    {
        match self.tables.get(subject) {
            Some(t) => t.render_compact(),
            None => String::new(),
        }
    }

    /// The table of the subject in markdown.
    pub fn render_markdown(&self, subject: &str) -> (r: String)
        requires
            table_of(self.tables@, subject@) is Some ==> forall|i: int|
                0 <= i < table_of(self.tables@, subject@)->0.rows.len() ==> can_shorten(
                    (#[trigger] table_of(self.tables@, subject@)->0.rows[i]).source_memory_id,
                ),
        ensures
            r@ == (match table_of(self.tables@, subject@) {
                Some(t) => markdown(t),
                None => Seq::<char>::empty(),
            }),
    {
        match self.tables.get(subject) {
            Some(t) => {
                assert forall|i: int| 0 <= i < t@.rows.len() implies can_shorten(
                    (#[trigger] t@.rows[i]).source_memory_id,
                ) by {
                    let found = table_of(self.tables@, subject@)->0;
                    assert(found == t@);
                    assert(can_shorten(found.rows[i].source_memory_id));
                }
                t.render_markdown()
            },
            None => String::new(),
        }
    }

    /// Copies of the rows of the subject that still hold.
    pub fn active_takes(&self, subject: &str) -> (r: Vec<TakesRow>)
        ensures
            row_views(r@) == (match table_of(self.tables@, subject@) {
                Some(t) => active(t.rows),
                None => Seq::<RowView>::empty(),
            }),
    {
        match self.tables.get(subject) {
            Some(t) => t.active_takes(),
            None => {
                let r: Vec<TakesRow> = Vec::new();
                assert(row_views(r@) =~= Seq::<RowView>::empty());
                r
            },
        }
    }

    /// Notes a memory as a whole: its content, shortened, under the claim `mentioned`.
    pub fn ingest_from_memory(&mut self, subject: &str, content: &str, memory_id: &str, timestamp: i64) -> (n:
        u32)
        requires
            table_or_new(old(self).tables@, subject@).next_row_num < u32::MAX,
        ensures
            n == table_or_new(old(self).tables@, subject@).next_row_num,
            table_of(final(self).tables@, subject@) == Some(
                with_take(
                    table_or_new(old(self).tables@, subject@),
                    "mentioned"@,
                    noted_value(content@),
                    memory_id@,
                    timestamp,
                ),
            ),
            forall|s: Seq<char>|
                s != subject@ ==> #[trigger] table_of(final(self).tables@, s) == table_of(
                    old(self).tables@,
                    s,
                ),
            final(self).tables@.len() == old(self).tables@.len() + (if table_of(
                old(self).tables@,
                subject@,
            ) is Some {
                0int
            } else {
                1int
            }),
            table_views(final(self).tables@) == put(
                table_views(old(self).tables@),
                subject@,
                with_take(
                    table_or_new(old(self).tables@, subject@),
                    "mentioned"@,
                    noted_value(content@),
                    memory_id@,
                    timestamp,
                ),
            ),
            distinct(final(self).tables@),
            rows_in(final(self).tables@) == rows_in(old(self).tables@) + 1,
    {
        let cs = chars_of(content);
        let value: String = if cs.len() > 80 {
            let head = slice_subrange(cs.as_slice(), 0, 79);
            let mut v = string_of(head);
            v.push('…');
            assert(v@ =~= noted_value(content@));
            v
        } else {
            string_of(cs.as_slice())
        };
        self.add_take(subject, "mentioned", value.as_str(), memory_id, timestamp)
    }

    /// The subjects that have a table.
    pub fn list_subjects(&self) -> (r: Vec<String>)
        ensures
            texts(r@) == self.tables@.map_values(|e: (Seq<char>, TakesTable)| e.0),
    {
        let ghost all = self.tables@.map_values(|e: (Seq<char>, TakesTable)| e.0);
        let mut out: Vec<String> = Vec::new();
        let mut i: usize = 0;
        assert(texts(out@) =~= all.take(0));
        while i < self.tables.len()
            invariant
                i <= self.tables@.len(),
                all == self.tables@.map_values(|e: (Seq<char>, TakesTable)| e.0),
                texts(out@) == all.take(i as int),
            decreases self.tables@.len() - i,
        {
            let ghost prev = texts(out@);
            out.push(self.tables.key_at(i).to_owned());
            assert(texts(out@) =~= prev.push(all[i as int]));
            i += 1;
            assert(all.take(i as int) =~= all.take(i - 1).push(all[i - 1]));
        }
        assert(all.take(i as int) =~= all);
        out
    }

    pub fn subject_count(&self) -> (n: usize)
        ensures
            n == self.tables@.len(),
    {
        self.tables.len()
    }

    /// The rows of all tables together, superseded ones with them.
    pub fn total_rows(&self) -> (n: usize)
        requires
            rows_in(self.tables@) <= usize::MAX,
        ensures
            n == rows_in(self.tables@),
    {
        let ghost all = self.tables@;
        let mut n: usize = 0;
        let mut i: usize = 0;
        while i < self.tables.len()
            invariant
                i <= all.len(),
                all == self.tables@,
                n == rows_in(all.take(i as int)),
                rows_in(all) <= usize::MAX,
            decreases all.len() - i,
        {
            proof {
                assert(all.take(i + 1).drop_last() =~= all.take(i as int));
                lemma_rows_grow(all, i + 1);
            }
            n += self.tables.value_at(i).rows.len();
            i += 1;
        }
        assert(all.take(i as int) =~= all);
        n
    }
}

proof fn lemma_rows_grow(s: Seq<(Seq<char>, TakesTable)>, i: int)
    requires
        0 <= i <= s.len(),
    ensures
        rows_in(s.take(i)) <= rows_in(s),
    decreases s.len() - i,
{
    if i < s.len() {
        assert(s.take(i + 1).drop_last() =~= s.take(i));
        lemma_rows_grow(s, i + 1);
    } else {
        assert(s.take(i) =~= s);
    }
}

} // verus!
