//! Personal data in texts: finding it, remembering it under an identifier, and
//! taking it out.

use crate::assoc::{lookup, lookup_after_put, put, Assoc};
use crate::pattern::{find_spans, is_match, regex_spans, span_in};
use crate::rank::{order_desc, order_of, order_sorts, positions, ranked};
use crate::text::{byte_slice, capital, capital_of, chars_of, count_bytes, encode_concat, head_of, hex,
    push_hex, same};
use crate::types::{text_at, Metadata, MetaView};
use std::collections::hash_map::DefaultHasher;
use std::hash::Hasher;
use vstd::prelude::*;
use vstd::std_specs::hash::DefaultHasherAdditionalSpecFns;
use vstd::string::*;
use vstd::utf8::{decode_utf8, encode_utf8, encode_utf8_decode_utf8, encode_utf8_valid_utf8,
    is_char_boundary, is_char_boundary_start_end_of_seq};

verus! {

/// What was done about personal data in a text.
#[derive(Clone, Copy, PartialEq, Eq, Debug, Structural)]
pub enum RedactStatus {
    Clean,
    Detected,
    Redacted,
}

impl Default for RedactStatus {
    fn default() -> (r: RedactStatus)
        ensures
            r == RedactStatus::Clean,
    {
        RedactStatus::Clean
    }
}

impl RedactStatus {
    /// The name under which the status is stored.
    pub open spec fn name(self) -> Seq<char> {
        match self {
            RedactStatus::Clean => "clean"@,
            RedactStatus::Detected => "detected"@,
            RedactStatus::Redacted => "redacted"@,
        }
    }

    pub fn as_str(&self) -> (r: &'static str)
        ensures
            r@ == self.name(),
    {
        match self {
            RedactStatus::Clean => "clean",
            RedactStatus::Detected => "detected",
            RedactStatus::Redacted => "redacted",
        }
    }
}

/// The status that metadata name; `Clean` where they name none.
pub open spec fn status_in(meta: Map<Seq<char>, MetaView>) -> RedactStatus {
    match text_at(meta, "redact_status"@) {
        Some(s) => if s == "detected"@ {
            RedactStatus::Detected
        } else if s == "redacted"@ {
            RedactStatus::Redacted
        } else {
            RedactStatus::Clean
        },
        None => RedactStatus::Clean,
    }
}

/// The status that metadata name.
pub fn redact_status_from_metadata(meta: &Metadata) -> (r: RedactStatus)
    ensures
        r == status_in(meta@),
{
    match meta.text("redact_status") {
        Some(s) => {
            if same(s.as_str(), "detected") {
                RedactStatus::Detected
            } else if same(s.as_str(), "redacted") {
                RedactStatus::Redacted
            } else {
                RedactStatus::Clean
            }
        },
        None => RedactStatus::Clean,
    }
}

/// Personal data in a text.
#[derive(Debug)]
pub struct PiiSpan {
    pub pii_type: String,
    /// First byte.
    pub start: usize,
    /// Byte behind the last.
    pub end: usize,
    /// The identifier under which it is remembered.
    pub tracker_id: String,
    pub redacted: bool,
}

/// What a span is.
pub struct SpanView {
    pub pii_type: Seq<char>,
    pub start: usize,
    pub end: usize,
    pub tracker_id: Seq<char>,
    pub redacted: bool,
}

impl View for PiiSpan {
    type V = SpanView;

    open spec fn view(&self) -> SpanView {
        SpanView {
            pii_type: self.pii_type@,
            start: self.start,
            end: self.end,
            tracker_id: self.tracker_id@,
            redacted: self.redacted,
        }
    }
}

impl Clone for PiiSpan {
    fn clone(&self) -> (r: PiiSpan)
        ensures
            r@ == self@,
    {
        PiiSpan {
            pii_type: self.pii_type.clone(),
            start: self.start,
            end: self.end,
            tracker_id: self.tracker_id.clone(),
            redacted: self.redacted,
        }
    }
}

/// What the spans of a list are.
pub open spec fn spans(v: Seq<PiiSpan>) -> Seq<SpanView> {
    v.map_values(|s: PiiSpan| s@)
}

/// Copies of the spans.
pub fn copy_spans(v: &Vec<PiiSpan>) -> (out: Vec<PiiSpan>)
    ensures
        spans(out@) == spans(v@),
{
    let mut out: Vec<PiiSpan> = Vec::new();
    let mut i: usize = 0;
    while i < v.len()
        invariant
            i <= v@.len(),
            out@.len() == i,
            forall|j: int| 0 <= j < i ==> (#[trigger] out@[j])@ == v@[j]@,
        decreases v@.len() - i,
    {
        out.push(v[i].clone());
        i += 1;
    }
    assert(spans(out@) =~= spans(v@));
    out
}

/// The kinds of personal data and the patterns that find them.
pub open spec fn pii_patterns() -> Seq<(Seq<char>, Seq<char>)> {
    seq![
        ("api_key_openai"@, r"sk-[a-zA-Z0-9]{20,}"@),
        (
            "api_key_generic"@,
            r#"(?i)(?:api[_-]?key|secret|token|bearer)\s*[:=]\s*['"]?[a-zA-Z0-9_\-]{16,}['"]?"#@,
        ),
        ("email"@, r"[a-zA-Z0-9._%+\-]+@[a-zA-Z0-9.\-]+\.[a-zA-Z]{2,}"@),
        ("phone_cn"@, r"\b1[3-9]\d{9}\b"@),
        ("id_card_cn"@, r"\b\d{17}[\dXx]\b"@),
        ("bank_card"@, r"\b\d{16,19}\b"@),
        ("password"@, r"(?i)(?:password|passwd|pwd)\s*[:=]\s*\S+"@),
        ("ipv4"@, r"\b(?:\d{1,3}\.){3}\d{1,3}\b"@),
    ]
}

fn patterns() -> (r: [(&'static str, &'static str); 8])
    ensures
        forall|i: int|
            0 <= i < 8 ==> ((#[trigger] r@[i]).0@, r@[i].1@) == pii_patterns()[i],
{
    [
        ("api_key_openai", r"sk-[a-zA-Z0-9]{20,}"),
        (
            "api_key_generic",
            r#"(?i)(?:api[_-]?key|secret|token|bearer)\s*[:=]\s*['"]?[a-zA-Z0-9_\-]{16,}['"]?"#,
        ),
        ("email", r"[a-zA-Z0-9._%+\-]+@[a-zA-Z0-9.\-]+\.[a-zA-Z]{2,}"),
        ("phone_cn", r"\b1[3-9]\d{9}\b"),
        ("id_card_cn", r"\b\d{17}[\dXx]\b"),
        ("bank_card", r"\b\d{16,19}\b"),
        ("password", r"(?i)(?:password|passwd|pwd)\s*[:=]\s*\S+"),
        ("ipv4", r"\b(?:\d{1,3}\.){3}\d{1,3}\b"),
    ]
}

/// The text of a byte range.
pub open spec fn text_in(text: Seq<char>, span: (usize, usize)) -> Seq<char> {
    decode_utf8(encode_utf8(text).subrange(span.0 as int, span.1 as int))
}

/// The identifier of personal data: its kind, and the hash of kind and text.
pub open spec fn tracker_text(pii_type: Seq<char>, matched: Seq<char>) -> Seq<char> {
    pii_type + "_"@ + hex(
        DefaultHasher::spec_finish(
            seq![encode_utf8(pii_type), seq![0xffu8], encode_utf8(matched), seq![0xffu8]],
        ) as nat,
        16,
    )
}

/// The identifier of personal data.
pub fn compute_tracker_id(pii_type: &str, matched_text: &str) -> (out: String)
    ensures
        out@ == tracker_text(pii_type@, matched_text@),
{
    let end = [0xffu8];
    let mut hasher = DefaultHasher::new();
    hasher.write(pii_type.as_bytes());
    hasher.write(vstd::array::array_as_slice(&end));
    hasher.write(matched_text.as_bytes());
    hasher.write(vstd::array::array_as_slice(&end));
    let h: u64 = hasher.finish();
    proof {
        assert(end@ =~= seq![0xffu8]);
        assert(hasher@ =~= seq![
            encode_utf8(pii_type@),
            seq![0xffu8],
            encode_utf8(matched_text@),
            seq![0xffu8],
        ]);
    }
    let mut out: String = pii_type.to_owned();
    out.append("_");
    push_hex(&mut out, h, 16);
    out
}

/// The span of a match.
pub open spec fn span_of(pii_type: Seq<char>, text: Seq<char>, m: (usize, usize)) -> SpanView {
    SpanView {
        pii_type,
        start: m.0,
        end: m.1,
        tracker_id: tracker_text(pii_type, text_in(text, m)),
        redacted: false,
    }
}

/// The spans of the first `n` kinds, kind by kind.
pub open spec fn found(text: Seq<char>, n: nat) -> Seq<SpanView>
    decreases n,
{
    if n == 0 {
        Seq::<SpanView>::empty()
    } else {
        let p = pii_patterns()[n - 1];
        found(text, (n - 1) as nat) + regex_spans(p.1, text).map_values(
            |m: (usize, usize)| span_of(p.0, text, m),
        )
    }
}

/// By where they begin, the earliest first.
pub open spec fn start_keys(s: Seq<SpanView>) -> Seq<i128> {
    s.map_values(|x: SpanView| (-(x.start as int)) as i128)
}

/// The personal data in a text, by where it begins; of spans that begin together,
/// that of the earlier kind first.
pub open spec fn pii_in(text: Seq<char>) -> Seq<SpanView> {
    let f = found(text, 8);
    ranked(f, start_keys(f), f.len() as int)
}

/// What is remembered of personal data, by identifier.
pub struct TrackerStore {
    pub entries: Assoc<String>,
}

/// The text that is remembered under an identifier.
pub open spec fn held_under(s: Seq<(Seq<char>, String)>, id: Seq<char>) -> Option<Seq<char>> {
    match lookup(s, id) {
        Some(t) => Some(t@),
        None => None,
    }
}

/// The text of the first span with that identifier.
pub open spec fn first_text(s: Seq<SpanView>, text: Seq<char>, id: Seq<char>) -> Option<Seq<char>>
    decreases s.len(),
{
    if s.len() == 0 {
        None
    } else {
        match first_text(s.drop_last(), text, id) {
            Some(t) => Some(t),
            None => if s.last().tracker_id == id {
                Some(text_in(text, (s.last().start, s.last().end)))
            } else {
                None
            },
        }
    }
}

/// What is remembered after the spans were seen: what was remembered stays, and
/// the first text of a new identifier is added.
pub open spec fn remembers(
    before: Seq<(Seq<char>, String)>,
    after: Seq<(Seq<char>, String)>,
    s: Seq<SpanView>,
    text: Seq<char>,
) -> bool {
    forall|id: Seq<char>| #[trigger]
        held_under(after, id) == (match held_under(before, id) {
            Some(t) => Some(t),
            None => first_text(s, text, id),
        })
}

/// The text that the first of the texts with that identifier shows under it.
pub open spec fn first_seen(seen: Seq<Seq<char>>, id: Seq<char>) -> Option<Seq<char>>
    decreases seen.len(),
{
    if seen.len() == 0 {
        None
    } else {
        match first_seen(seen.drop_last(), id) {
            Some(t) => Some(t),
            None => first_text(found(seen.last(), 8), seen.last(), id),
        }
    }
}

/// What is remembered after those texts were looked through, one after the other: what was
/// remembered stays, and the first text of a new identifier is added.
pub open spec fn remembers_all(
    before: Seq<(Seq<char>, String)>,
    after: Seq<(Seq<char>, String)>,
    seen: Seq<Seq<char>>,
) -> bool {
    forall|id: Seq<char>| #[trigger]
        held_under(after, id) == (match held_under(before, id) {
            Some(t) => Some(t),
            None => first_seen(seen, id),
        })
}

/// What is remembered of one text is what is remembered of a list of it alone.
pub proof fn lemma_remembers_one(
    before: Seq<(Seq<char>, String)>,
    after: Seq<(Seq<char>, String)>,
    text: Seq<char>,
)
    ensures
        remembers_all(before, after, seq![text]) == remembers(before, after, found(text, 8), text),
{
    let seen = seq![text];
    assert(seen.drop_last() =~= Seq::<Seq<char>>::empty());
    assert forall|id: Seq<char>| #[trigger] first_seen(seen, id) == first_text(found(text, 8), text, id) by {
        assert(first_seen(seen.drop_last(), id) is None);
    }
    if remembers_all(before, after, seen) {
        assert forall|id: Seq<char>| #[trigger]
            held_under(after, id) == (match held_under(before, id) {
                Some(t) => Some(t),
                None => first_text(found(text, 8), text, id),
            }) by {
            assert(first_seen(seen, id) == first_text(found(text, 8), text, id));
        }
    }
}

proof fn lemma_first_seen(a: Seq<Seq<char>>, b: Seq<Seq<char>>, id: Seq<char>)
    ensures
        first_seen(a + b, id) == (match first_seen(a, id) {
            Some(t) => Some(t),
            None => first_seen(b, id),
        }),
    decreases b.len(),
{
    if b.len() == 0 {
        assert(a + b =~= a);
    } else {
        assert((a + b).drop_last() =~= a + b.drop_last());
        lemma_first_seen(a, b.drop_last(), id);
    }
}

/// What is remembered of some texts and then of others is what is remembered of all of
/// them.
pub proof fn lemma_remembers_more(
    before: Seq<(Seq<char>, String)>,
    mid: Seq<(Seq<char>, String)>,
    after: Seq<(Seq<char>, String)>,
    a: Seq<Seq<char>>,
    b: Seq<Seq<char>>,
)
    requires
        remembers_all(before, mid, a),
        remembers_all(mid, after, b),
    ensures
        remembers_all(before, after, a + b),
{
    assert forall|id: Seq<char>| #[trigger]
        held_under(after, id) == (match held_under(before, id) {
            Some(t) => Some(t),
            None => first_seen(a + b, id),
        }) by {
        lemma_first_seen(a, b, id);
        assert(held_under(mid, id) == (match held_under(before, id) {
            Some(t) => Some(t),
            None => first_seen(a, id),
        }));
    }
}

/// What was remembered is never forgotten or changed, whatever texts are looked through.
pub proof fn remembered_texts_stay(
    before: Seq<(Seq<char>, String)>,
    after: Seq<(Seq<char>, String)>,
    seen: Seq<Seq<char>>,
    id: Seq<char>,
)
    requires
        remembers_all(before, after, seen),
        held_under(before, id) is Some,
    ensures
        held_under(after, id) == held_under(before, id),
{
}

impl TrackerStore {
    /// Nothing remembered.
    pub fn new() -> (r: TrackerStore)
        ensures
            r.entries@ == Seq::<(Seq<char>, String)>::empty(),
    {
        TrackerStore { entries: Assoc::new() }
    }
}

/// The text that is remembered under the identifier.
pub fn tracker_lookup(store: &TrackerStore, tracker_id: &str) -> (r: Option<String>)
    ensures
        crate::text::opt_text(r) == held_under(store.entries@, tracker_id@),
{
    match store.entries.get(tracker_id) {
        Some(t) => Some(t.clone()),
        None => None,
    }
}

/// Of two spans of one kind, the earlier ends no later than the other begins.
pub open spec fn kinds_apart(s: Seq<SpanView>) -> bool {
    forall|i: int, j: int|
        0 <= i < j < s.len() && (#[trigger] s[i]).pii_type == (#[trigger] s[j]).pii_type
            ==> s[i].end <= s[j].start
}

/// The spans come by where they begin.
pub open spec fn by_start(s: Seq<SpanView>) -> bool {
    forall|i: int, j: int| 0 <= i < j < s.len() ==> (#[trigger] s[i]).start <= (#[trigger] s[j]).start
}

/// The kinds have different names.
proof fn lemma_kinds_differ(i: int, j: int)
    requires
        0 <= i < j < 8,
    ensures
        pii_patterns()[i].0 != pii_patterns()[j].0,
{
    reveal_strlit("api_key_openai");
    reveal_strlit("api_key_generic");
    reveal_strlit("email");
    reveal_strlit("phone_cn");
    reveal_strlit("id_card_cn");
    reveal_strlit("bank_card");
    reveal_strlit("password");
    reveal_strlit("ipv4");
    assert("api_key_openai"@.len() == 14 && "api_key_generic"@.len() == 15 && "email"@.len() == 5);
    assert("phone_cn"@.len() == 8 && "id_card_cn"@.len() == 10 && "bank_card"@.len() == 9);
    assert("password"@.len() == 8 && "ipv4"@.len() == 4);
    assert("phone_cn"@[1] == 'h' && "password"@[1] == 'a');
}

/// The spans of the first `n` kinds are of those kinds.
proof fn lemma_found_kinds(text: Seq<char>, n: nat, i: int)
    requires
        n <= 8,
        0 <= i < found(text, n).len(),
    ensures
        exists|k: int| 0 <= k < n && found(text, n)[i].pii_type == #[trigger] pii_patterns()[k].0,
    decreases n,
{
    if n > 0 {
        let rest = found(text, (n - 1) as nat);
        if i < rest.len() {
            lemma_found_kinds(text, (n - 1) as nat, i);
            let k = choose|k: int| 0 <= k < n - 1 && rest[i].pii_type == #[trigger] pii_patterns()[k].0;
            assert(found(text, n)[i].pii_type == pii_patterns()[k].0);
        } else {
            assert(found(text, n)[i].pii_type == pii_patterns()[n - 1].0);
        }
    }
}

/// One more kind keeps the spans of each kind apart.
proof fn lemma_kinds_apart(text: Seq<char>, n: nat)
    requires
        n < 8,
        kinds_apart(found(text, n)),
        forall|i: int, j: int|
            0 <= i < j < regex_spans(pii_patterns()[n as int].1, text).len() ==> (#[trigger] regex_spans(
                pii_patterns()[n as int].1,
                text,
            )[i]).1 <= (#[trigger] regex_spans(pii_patterns()[n as int].1, text)[j]).0,
    ensures
        kinds_apart(found(text, n + 1)),
{
    let a = found(text, n);
    let ms = regex_spans(pii_patterns()[n as int].1, text);
    let s = found(text, n + 1);
    assert forall|i: int, j: int|
        0 <= i < j < s.len() && (#[trigger] s[i]).pii_type == (#[trigger] s[j]).pii_type implies s[i].end
        <= s[j].start by {
        if j < a.len() {
            assert(s[i] == a[i] && s[j] == a[j]);
        } else if i < a.len() {
            assert(s[i] == a[i]);
            lemma_found_kinds(text, n, i);
            let k = choose|k: int| 0 <= k < n && a[i].pii_type == #[trigger] pii_patterns()[k].0;
            lemma_kinds_differ(k, n as int);
        } else {
            assert(ms[i - a.len()].1 <= ms[j - a.len()].0);
        }
    }
}

/// Ordering spans by where they begin keeps the spans of each kind apart.
proof fn lemma_ordered_apart(f: Seq<SpanView>)
    requires
        kinds_apart(f),
        forall|i: int| 0 <= i < f.len() ==> (#[trigger] f[i]).start <= f[i].end,
    ensures
        kinds_apart(ranked(f, start_keys(f), f.len() as int)),
        by_start(ranked(f, start_keys(f), f.len() as int)),
{
    let keys = start_keys(f);
    order_sorts(keys);
    let p = order_of(keys);
    let r = ranked(f, keys, f.len() as int);
    assert forall|i: int, j: int|
        0 <= i < j < r.len() implies (#[trigger] r[i]).start <= (#[trigger] r[j]).start
        && (r[i].pii_type == r[j].pii_type ==> r[i].end <= r[j].start) by {
        let a = p[i];
        let b = p[j];
        assert(crate::rank::before(keys, a, b));
        assert(r[i] == f[a] && r[j] == f[b]);
        if f[a].pii_type == f[b].pii_type {
            if a < b {
                assert(f[a].end <= f[b].start);
            } else {
                assert(f[b].end <= f[a].start);
                assert(f[b].start <= f[b].end);
            }
        }
    }
}

fn raw_spans(text: &str) -> (out: Vec<PiiSpan>)
    ensures
        spans(out@) == found(text@, 8),
        kinds_apart(found(text@, 8)),
        forall|i: int|
            0 <= i < out@.len() ==> span_in(text@, ((#[trigger] out@[i]).start, out@[i].end)),
{
    let pats = patterns();
    let mut out: Vec<PiiSpan> = Vec::new();
    let mut k: usize = 0;
    assert(spans(out@) =~= found(text@, 0));
    while k < 8
        invariant
            k <= 8,
            forall|i: int|
                0 <= i < 8 ==> ((#[trigger] pats@[i]).0@, pats@[i].1@) == pii_patterns()[i],
            spans(out@) == found(text@, k as nat),
            kinds_apart(found(text@, k as nat)),
            forall|i: int|
                0 <= i < out@.len() ==> span_in(text@, ((#[trigger] out@[i]).start, out@[i].end)),
        decreases 8 - k,
    {
        let (kind, pattern) = pats[k];
        let ms = find_spans(pattern, text);
        let ghost start = spans(out@);
        let ghost all = ms@.map_values(|m: (usize, usize)| span_of(kind@, text@, m));
        let mut i: usize = 0;
        assert(spans(out@) =~= start + all.take(0));
        while i < ms.len()
            invariant
                i <= ms@.len(),
                all == ms@.map_values(|m: (usize, usize)| span_of(kind@, text@, m)),
                spans(out@) == start + all.take(i as int),
                forall|j: int| 0 <= j < ms@.len() ==> span_in(text@, #[trigger] ms@[j]),
                forall|j: int|
                    0 <= j < out@.len() ==> span_in(
                        text@,
                        ((#[trigger] out@[j]).start, out@[j].end),
                    ),
            decreases ms@.len() - i,
        {
            let (a, b) = ms[i];
            assert(span_in(text@, ms@[i as int]));
            let matched = byte_slice(text, a, b);
            proof {
                encode_utf8_decode_utf8(matched@);
            }
            let tracker_id = compute_tracker_id(kind, matched);
            let ghost prev = spans(out@);
            let ghost before = out@;
            out.push(
                PiiSpan {
                    pii_type: kind.to_owned(),
                    start: a,
                    end: b,
                    tracker_id,
                    redacted: false,
                },
            );
            assert(spans(out@) =~= prev.push(all[i as int]));
            i += 1;
            assert(all.take(i as int) =~= all.take(i - 1).push(all[i - 1]));
            assert(spans(out@) =~= start + all.take(i as int));
            assert forall|j: int| 0 <= j < out@.len() implies span_in(
                text@,
                ((#[trigger] out@[j]).start, out@[j].end),
            ) by {
                if j < before.len() {
                    assert(out@[j] == before[j]);
                }
            }
        }
        assert(all.take(i as int) =~= all);
        assert(pats@[k as int].0@ == kind@);
        proof {
            lemma_kinds_apart(text@, k as nat);
        }
        k += 1;
    }
    out
}

fn remember(store: &mut TrackerStore, text: &str, found_spans: &Vec<PiiSpan>)
    requires
        forall|i: int|
            0 <= i < found_spans@.len() ==> span_in(
                text@,
                ((#[trigger] found_spans@[i]).start, found_spans@[i].end),
            ),
    ensures
        remembers(old(store).entries@, final(store).entries@, spans(found_spans@), text@),
{
    let ghost before = store.entries@;
    let ghost all = spans(found_spans@);
    let mut i: usize = 0;
    while i < found_spans.len()
        invariant
            i <= found_spans@.len(),
            all == spans(found_spans@),
            forall|k: int|
                0 <= k < found_spans@.len() ==> span_in(
                    text@,
                    ((#[trigger] found_spans@[k]).start, found_spans@[k].end),
                ),
            remembers(before, store.entries@, all.take(i as int), text@),
        decreases found_spans@.len() - i,
    {
        let s = &found_spans[i];
        let ghost mid = store.entries@;
        proof {
            assert(all.take(i + 1).drop_last() =~= all.take(i as int));
            assert(all.take(i + 1).last() == s@);
        }
        let known = store.entries.get(s.tracker_id.as_str()).is_some();
        let matched = byte_slice(text, s.start, s.end);
        proof {
            encode_utf8_decode_utf8(matched@);
        }
        if !known {
            let t: String = matched.to_owned();
            proof {
                assert forall|id: Seq<char>| #[trigger]
                    held_under(put(mid, s.tracker_id@, t), id) == (if id == s.tracker_id@ {
                        Some(matched@)
                    } else {
                        held_under(mid, id)
                    }) by {
                    lookup_after_put(mid, s.tracker_id@, t, id);
                }
            }
            store.entries.insert(s.tracker_id.as_str(), t);
        }
        proof {
            assert forall|id: Seq<char>| #[trigger]
                held_under(store.entries@, id) == (match held_under(before, id) {
                    Some(t) => Some(t),
                    None => first_text(all.take(i + 1), text@, id),
                }) by {
                assert(held_under(mid, id) == (match held_under(before, id) {
                    Some(t) => Some(t),
                    None => first_text(all.take(i as int), text@, id),
                }));
            }
        }
        i += 1;
    }
    assert(all.take(i as int) =~= all);
}

/// Finds the personal data in a text and remembers it. Spans of one kind lie apart; spans of
/// different kinds may overlap. That a span is never empty is not stated: it rests on what the
/// patterns match.
pub fn detect_pii(store: &mut TrackerStore, text: &str) -> (out: Vec<PiiSpan>)
    ensures
        spans(out@) == pii_in(text@),
        kinds_apart(spans(out@)),
        by_start(spans(out@)),
        forall|i: int|
            0 <= i < out@.len() ==> span_in(text@, ((#[trigger] out@[i]).start, out@[i].end)),
        remembers(old(store).entries@, final(store).entries@, found(text@, 8), text@),
{
    let raw = raw_spans(text);
    remember(store, text, &raw);
    let ghost all = spans(raw@);
    let mut keys: Vec<i128> = Vec::new();
    let mut i: usize = 0;
    while i < raw.len()
        invariant
            i <= raw@.len(),
            all == spans(raw@),
            keys@ == start_keys(all).take(i as int),
        decreases raw@.len() - i,
    {
        keys.push(-(raw[i].start as i128));
        i += 1;
        assert(all[i - 1] == raw@[i - 1]@);
        assert(start_keys(all).take(i as int) =~= start_keys(all).take(i - 1).push(
            start_keys(all)[i - 1],
        ));
    }
    assert(start_keys(all).take(i as int) =~= start_keys(all));
    let p = order_desc(&keys);
    let ghost want = pii_in(text@);
    proof {
        order_sorts(start_keys(all));
        assert forall|j: int| 0 <= j < all.len() implies (#[trigger] all[j]).start <= all[j].end by {
            assert(all[j] == raw@[j]@);
            assert(span_in(text@, (raw@[j].start, raw@[j].end)));
        }
        lemma_ordered_apart(all);
    }
    let mut out: Vec<PiiSpan> = Vec::new();
    let mut k: usize = 0;
    assert(spans(out@) =~= want.take(0));
    while k < p.len()
        invariant
            k <= p@.len(),
            p@.len() == raw@.len(),
            all == spans(raw@),
            want == ranked(all, start_keys(all), all.len() as int),
            want.len() == p@.len(),
            positions(p@) == order_of(start_keys(all)),
            forall|j: int| 0 <= j < p@.len() ==> (#[trigger] p@[j]) < raw@.len(),
            spans(out@) == want.take(k as int),
            forall|j: int|
                0 <= j < raw@.len() ==> span_in(text@, ((#[trigger] raw@[j]).start, raw@[j].end)),
            forall|j: int|
                0 <= j < out@.len() ==> span_in(text@, ((#[trigger] out@[j]).start, out@[j].end)),
        decreases p@.len() - k,
    {
        let at: usize = p[k];
        let ghost prev = spans(out@);
        let ghost before = out@;
        let s = raw[at].clone();
        assert(s.start == raw@[at as int].start && s.end == raw@[at as int].end) by {
            assert(s@ == raw@[at as int]@);
        }
        out.push(s);
        assert(positions(p@)[k as int] == at as int);
        assert(all[at as int] == raw@[at as int]@);
        assert(spans(out@) =~= prev.push(want[k as int]));
        assert forall|j: int| 0 <= j < out@.len() implies span_in(
            text@,
            ((#[trigger] out@[j]).start, out@[j].end),
        ) by {
            if j < before.len() {
                assert(out@[j] == before[j]);
            }
        }
        k += 1;
        assert(want.take(k as int) =~= want.take(k - 1).push(want[k - 1]));
    }
    assert(want.take(k as int) =~= want);
    out
}

/// Whether the text holds personal data.
pub fn has_pii(text: &str) -> (r: bool)
    ensures
        r == (pii_in(text@).len() > 0),
{
    let pats = patterns();
    let mut k: usize = 0;
    proof {
        order_sorts(start_keys(found(text@, 8)));
    }
    while k < 8
        invariant
            k <= 8,
            forall|i: int|
                0 <= i < 8 ==> ((#[trigger] pats@[i]).0@, pats@[i].1@) == pii_patterns()[i],
            found(text@, k as nat).len() == 0,
        decreases 8 - k,
    {
        let (kind, pattern) = pats[k];
        assert(pats@[k as int].1@ == pattern@);
        if is_match(pattern, text) {
            proof {
                lemma_found_grows(text@, (k + 1) as nat);
                order_sorts(start_keys(found(text@, 8)));
            }
            return true;
        }
        k += 1;
    }
    false
}

proof fn lemma_found_grows(text: Seq<char>, n: nat)
    requires
        n <= 8,
    ensures
        found(text, n).len() <= found(text, 8).len(),
    decreases 8 - n,
{
    if n < 8 {
        lemma_found_grows(text, n + 1);
    }
}

// ---------------------------------------------------------------------------
// Taking the data out
// ---------------------------------------------------------------------------

/// What stands in the place of personal data.
pub open spec fn placeholder(pii_type: Seq<char>) -> Seq<char> {
    "["@ + pii_type.map_values(|c: char| capital(c)) + "]"@
}

/// No span begins before the one before it ends.
pub open spec fn apart(s: Seq<SpanView>) -> bool {
    forall|i: int| 0 <= i < s.len() - 1 ==> (#[trigger] s[i]).end <= s[i + 1].start
}

/// Where the last span ends.
pub open spec fn last_end(s: Seq<SpanView>) -> int {
    if s.len() == 0 {
        0
    } else {
        s.last().end as int
    }
}

/// The bytes of the text up to the end of the last span, with placeholders for
/// the spans.
pub open spec fn masked(b: Seq<u8>, s: Seq<SpanView>) -> Seq<u8>
    decreases s.len(),
{
    if s.len() == 0 {
        Seq::<u8>::empty()
    } else {
        masked(b, s.drop_last()) + b.subrange(last_end(s.drop_last()), s.last().start as int)
            + encode_utf8(placeholder(s.last().pii_type))
    }
}

/// The text with placeholders for the spans.
pub open spec fn masked_text(text: Seq<char>, s: Seq<SpanView>) -> Seq<char> {
    let b = encode_utf8(text);
    decode_utf8(masked(b, s) + b.subrange(last_end(s), b.len() as int))
}

/// The spans, marked as taken out.
pub open spec fn marked(s: Seq<SpanView>) -> Seq<SpanView> {
    s.map_values(|x: SpanView| SpanView { redacted: true, ..x })
}

fn append_placeholder(out: &mut String, pii_type: &str)
    ensures
        final(out)@ == old(out)@ + placeholder(pii_type@),
{
    let ghost start = out@;
    let cs = chars_of(pii_type);
    out.append("[");
    let ghost open = out@;
    let ghost upper = pii_type@.map_values(|c: char| capital(c));
    let mut i: usize = 0;
    assert(out@ =~= open + upper.take(0));
    while i < cs.len()
        invariant
            i <= cs@.len(),
            cs@ == pii_type@,
            upper == pii_type@.map_values(|c: char| capital(c)),
            out@ == open + upper.take(i as int),
        decreases cs@.len() - i,
    {
        out.push(capital_of(cs[i]));
        i += 1;
        assert(upper.take(i as int) =~= upper.take(i - 1).push(upper[i - 1]));
        assert(out@ =~= open + upper.take(i as int));
    }
    assert(upper.take(i as int) =~= upper);
    out.append("]");
    assert(out@ =~= start + placeholder(pii_type@));
}

/// The text with placeholders for spans that lie apart.
pub fn mask_spans(text: &str, found_spans: &Vec<PiiSpan>) -> (out: String)
    requires
        forall|i: int|
            0 <= i < found_spans@.len() ==> span_in(
                text@,
                ((#[trigger] found_spans@[i]).start, found_spans@[i].end),
            ),
        apart(spans(found_spans@)),
    ensures
        out@ == masked_text(text@, spans(found_spans@)),
{
    let ghost b = encode_utf8(text@);
    let ghost all = spans(found_spans@);
    let n: usize = count_bytes(text);
    let mut out: String = String::new();
    let mut last: usize = 0;
    let mut i: usize = 0;
    proof {
        encode_utf8_valid_utf8(text@);
        is_char_boundary_start_end_of_seq(b);
        assert(encode_utf8(out@) =~= masked(b, all.take(0)));
    }
    while i < found_spans.len()
        invariant
            i <= found_spans@.len(),
            b == encode_utf8(text@),
            all == spans(found_spans@),
            n == b.len(),
            apart(all),
            last == last_end(all.take(i as int)),
            last <= n,
            is_char_boundary(b, last as int),
            encode_utf8(out@) == masked(b, all.take(i as int)),
            forall|k: int|
                0 <= k < found_spans@.len() ==> span_in(
                    text@,
                    ((#[trigger] found_spans@[k]).start, found_spans@[k].end),
                ),
        decreases found_spans@.len() - i,
    {
        let s = &found_spans[i];
        proof {
            assert(all[i as int] == s@);
            assert(all.take(i + 1).drop_last() =~= all.take(i as int));
            assert(all.take(i + 1).last() == s@);
            if i > 0 {
                assert(all.take(i as int).last() == all[i - 1]);
                assert(all[i - 1].end <= all[i - 1 + 1].start);
            }
            assert(span_in(text@, (found_spans@[i as int].start, found_spans@[i as int].end)));
        }
        let gap = byte_slice(text, last, s.start);
        let ghost o0 = out@;
        out.append(gap);
        let ghost o1 = out@;
        append_placeholder(&mut out, s.pii_type.as_str());
        proof {
            encode_concat(o0, gap@);
            encode_concat(o1, placeholder(s.pii_type@));
        }
        last = s.end;
        i += 1;
    }
    assert(all.take(i as int) =~= all);
    let tail = byte_slice(text, last, n);
    let ghost o = out@;
    out.append(tail);
    proof {
        encode_concat(o, tail@);
        encode_utf8_decode_utf8(out@);
    }
    out
}

fn mark_spans(found_spans: Vec<PiiSpan>) -> (out: Vec<PiiSpan>)
    ensures
        spans(out@) == marked(spans(found_spans@)),
{
    let mut out: Vec<PiiSpan> = Vec::new();
    let mut i: usize = 0;
    while i < found_spans.len()
        invariant
            i <= found_spans@.len(),
            out@.len() == i,
            forall|k: int|
                0 <= k < i ==> (#[trigger] out@[k])@ == (SpanView {
                    redacted: true,
                    ..found_spans@[k]@
                }),
        decreases found_spans@.len() - i,
    {
        let mut s = found_spans[i].clone();
        s.redacted = true;
        out.push(s);
        i += 1;
    }
    assert(spans(out@) =~= marked(spans(found_spans@)));
    out
}

/// The text without personal data, the spans that were taken out, and whether
/// there were any. The spans must lie apart.
pub fn redact_content(store: &mut TrackerStore, text: &str) -> (r: (String, Vec<PiiSpan>, RedactStatus))
    requires
        apart(pii_in(text@)),
    ensures
        r.0@ == masked_text(text@, pii_in(text@)) || pii_in(text@).len() == 0,
        pii_in(text@).len() == 0 ==> r.0@ == text@ && r.2 == RedactStatus::Clean,
        pii_in(text@).len() > 0 ==> r.2 == RedactStatus::Redacted,
        spans(r.1@) == marked(pii_in(text@)),
        remembers(old(store).entries@, final(store).entries@, found(text@, 8), text@),
{
    let s = detect_pii(store, text);
    if s.len() == 0 {
        assert(spans(s@) =~= marked(pii_in(text@)));
        return (text.to_owned(), s, RedactStatus::Clean);
    }
    let out = mask_spans(text, &s);
    assert(spans(s@).len() > 0);
    (out, mark_spans(s), RedactStatus::Redacted)
}

/// Whether the spans lie apart.
fn lie_apart(s: &Vec<PiiSpan>) -> (r: bool)
    ensures
        r == apart(spans(s@)),
{
    let ghost all = spans(s@);
    let mut i: usize = 1;
    while i < s.len()
        invariant
            1 <= i,
            all == spans(s@),
            forall|k: int| 0 <= k < i - 1 && k < all.len() - 1 ==> (#[trigger] all[k]).end <= all[k + 1].start,
        decreases s@.len() - i,
    {
        assert(all[i - 1] == s@[i - 1]@);
        assert(all[i as int] == s@[i as int]@);
        if s[i - 1].end > s[i].start {
            assert(!(all[i - 1].end <= all[i - 1 + 1].start));
            return false;
        }
        i += 1;
    }
    true
}

/// As [`redact_content`], but `None` for a text in which two finds overlap.
pub fn try_redact_content(store: &mut TrackerStore, text: &str) -> (r: Option<
    (String, Vec<PiiSpan>, RedactStatus),
>)
    ensures
        r is Some == apart(pii_in(text@)),
        match r {
            Some(x) => (x.0@ == masked_text(text@, pii_in(text@)) || pii_in(text@).len() == 0) && (
            pii_in(text@).len() == 0 ==> x.0@ == text@ && x.2 == RedactStatus::Clean) && (pii_in(
                text@,
            ).len() > 0 ==> x.2 == RedactStatus::Redacted) && spans(x.1@) == marked(pii_in(text@)),
            None => true,
        },
        remembers(old(store).entries@, final(store).entries@, found(text@, 8), text@),
{
    let ghost before = store.entries@;
    let s = detect_pii(store, text);
    let ghost mid = store.entries@;
    if lie_apart(&s) {
        let r = redact_content(store, text);
        proof {
            assert forall|id: Seq<char>| #[trigger]
                held_under(store.entries@, id) == (match held_under(before, id) {
                    Some(t) => Some(t),
                    None => first_text(found(text@, 8), text@, id),
                }) by {
                assert(held_under(mid, id) == (match held_under(before, id) {
                    Some(t) => Some(t),
                    None => first_text(found(text@, 8), text@, id),
                }));
            }
        }
        Some(r)
    } else {
        None
    }
}

/// A text for the log: at most `max_len` characters, and a mark where some were
/// left out.
pub open spec fn log_text(redacted: Seq<char>, status: RedactStatus, max_len: int) -> Seq<char> {
    if redacted.len() <= max_len {
        redacted
    } else {
        match status {
            RedactStatus::Clean => redacted.take(max_len) + "…"@,
            RedactStatus::Redacted => redacted.take(max_len) + "…(redacted)"@,
            RedactStatus::Detected => redacted.take(max_len),
        }
    }
}

/// A text for the log, given what was left of it.
pub fn shorten_for_log(redacted: String, status: RedactStatus, max_len: usize) -> (r: String)
    ensures
        r@ == log_text(redacted@, status, max_len as int),
{
    if crate::text::count_chars(redacted.as_str()) <= max_len {
        return redacted;
    }
    let mut out = head_of(redacted.as_str(), max_len);
    match status {
        RedactStatus::Clean => {
            out.append("…");
        },
        RedactStatus::Redacted => {
            out.append("…(redacted)");
        },
        RedactStatus::Detected => {},
    }
    out
}

/// The text for the log without personal data. The spans must lie apart.
pub fn redact_for_log(store: &mut TrackerStore, text: &str, max_len: usize) -> (r: String)
    requires
        apart(pii_in(text@)),
    ensures
        r@ == (if pii_in(text@).len() == 0 {
            log_text(text@, RedactStatus::Clean, max_len as int)
        } else {
            log_text(masked_text(text@, pii_in(text@)), RedactStatus::Redacted, max_len as int)
        }),
        remembers(old(store).entries@, final(store).entries@, found(text@, 8), text@),
{
    let (redacted, _spans, status) = redact_content(store, text);
    shorten_for_log(redacted, status, max_len)
}

/// As [`redact_for_log`], but `None` for a text in which two finds overlap.
pub fn try_redact_for_log(store: &mut TrackerStore, text: &str, max_len: usize) -> (r: Option<String>)
    ensures
        match r {
            Some(t) => apart(pii_in(text@)) && t@ == (if pii_in(text@).len() == 0 {
                log_text(text@, RedactStatus::Clean, max_len as int)
            } else {
                log_text(masked_text(text@, pii_in(text@)), RedactStatus::Redacted, max_len as int)
            }),
            None => !apart(pii_in(text@)),
        },
        remembers(old(store).entries@, final(store).entries@, found(text@, 8), text@),
{
    let ghost before = store.entries@;
    let s = detect_pii(store, text);
    let ghost mid = store.entries@;
    if lie_apart(&s) {
        let r = redact_for_log(store, text, max_len);
        proof {
            assert forall|id: Seq<char>| #[trigger]
                held_under(store.entries@, id) == (match held_under(before, id) {
                    Some(t) => Some(t),
                    None => first_text(found(text@, 8), text@, id),
                }) by {
                assert(held_under(mid, id) == (match held_under(before, id) {
                    Some(t) => Some(t),
                    None => first_text(found(text@, 8), text@, id),
                }));
            }
        }
        Some(r)
    } else {
        None
    }
}

/// A text in which no personal data is found has none of it taken out.
pub proof fn clean_text_is_unchanged(text: Seq<char>)
    requires
        pii_in(text).len() == 0,
    ensures
        masked_text(text, pii_in(text)) == text,
        apart(pii_in(text)),
{
    let b = encode_utf8(text);
    assert(masked(b, pii_in(text)) + b.subrange(0, b.len() as int) =~= b);
    encode_utf8_decode_utf8(text);
}

/// The text is empty, or begins with white space or a placeholder, and so does what
/// follows it.
pub open spec fn only_placeholders(s: Seq<char>) -> bool
    decreases s.len(),
{
    if s.len() == 0 {
        true
    } else if crate::text::is_white(s[0]) {
        only_placeholders(s.skip(1))
    } else {
        match leading_placeholder(s, 0) {
            Some(n) => if 0 < n <= s.len() {
                only_placeholders(s.skip(n))
            } else {
                false
            },
            None => false,
        }
    }
}

/// The length of the placeholder at the beginning, of the `k`-th kind or a later one.
pub open spec fn leading_placeholder(s: Seq<char>, k: int) -> Option<int>
    decreases 8 - k,
{
    if 0 <= k < 8 {
        let p = placeholder(pii_patterns()[k].0);
        if crate::text::begins(s, p) {
            Some(p.len() as int)
        } else {
            leading_placeholder(s, k + 1)
        }
    } else {
        None
    }
}

fn find_placeholder(s: &[char]) -> (r: Option<usize>)
    ensures
        match r {
            Some(n) => leading_placeholder(s@, 0) == Some(n as int) && n <= s@.len(),
            None => leading_placeholder(s@, 0) is None,
        },
{
    let pats = patterns();
    let mut k: usize = 0;
    while k < 8
        invariant
            k <= 8,
            forall|i: int|
                0 <= i < 8 ==> ((#[trigger] pats@[i]).0@, pats@[i].1@) == pii_patterns()[i],
            leading_placeholder(s@, k as int) == leading_placeholder(s@, 0),
        decreases 8 - k,
    {
        let (kind, pattern) = pats[k];
        assert(pats@[k as int].0@ == kind@);
        let mut p: String = String::new();
        append_placeholder(&mut p, kind);
        assert(p@ =~= placeholder(kind@));
        let pc = chars_of(p.as_str());
        if crate::text::starts_with_chars(s, pc.as_slice()) {
            return Some(pc.len());
        }
        k += 1;
    }
    None
}

/// Whether nothing but placeholders is left of a text: it is not blank, and holds only
/// placeholders and white space.
pub fn is_pure_placeholder_content(content: &str) -> (r: bool)
    ensures
        r == (!crate::text::is_blank(content@) && only_placeholders(content@)),
{
    if crate::text::blank(content) {
        return false;
    }
    let cs = chars_of(content);
    let mut i: usize = 0;
    assert(cs@.skip(0) =~= cs@);
    while i < cs.len()
        invariant
            i <= cs@.len(),
            cs@ == content@,
            !crate::text::is_blank(content@),
            only_placeholders(cs@.skip(i as int)) == only_placeholders(cs@),
        decreases cs@.len() - i,
    {
        if crate::text::white(cs[i]) {
            assert(cs@.skip(i as int).skip(1) =~= cs@.skip(i + 1));
            i += 1;
        } else {
            let rest = vstd::slice::slice_subrange(cs.as_slice(), i, cs.len());
            assert(rest@ =~= cs@.skip(i as int));
            match find_placeholder(rest) {
                Some(n) => {
                    if n == 0 {
                        return false;
                    }
                    assert(cs@.skip(i as int).skip(n as int) =~= cs@.skip(i + n));
                    i += n;
                },
                None => {
                    return false;
                },
            }
        }
    }
    true
}

} // verus!
