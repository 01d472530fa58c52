//! Relative time words in memories: "yesterday" means the day before the memory
//! was made, so the memory says which day that was.

use crate::text::{contains, contains_any, has_any, has_sub, lower, lowercase, opt_text, strs};
use crate::types::{ItemView, MemoryItem};
use vstd::array::*;
use vstd::prelude::*;
use vstd::string::*;

verus! {

/// Words for times that depend on when they are said, in lower case.
pub open spec fn relative_words() -> Seq<Seq<char>> {
    seq![
        "今天"@, "昨天"@, "明天"@, "后天"@, "前天"@,
        "上周"@, "本周"@, "下周"@, "上个月"@, "下个月"@,
        "去年"@, "今年"@, "明年"@,
        "刚才"@, "之前"@, "之后"@,
        "今天早上"@, "今天下午"@, "今天晚上"@,
        "昨天早上"@, "昨天下午"@, "昨天晚上"@,
        "tomorrow"@, "yesterday"@, "today"@,
        "last week"@, "next week"@, "last month"@, "next month"@,
    ]
}

/// Whether the text holds a word for a relative time, whatever the case.
pub fn has_relative_time_word(text: &str) -> (r: bool)
    ensures
        r == has_any(lowercase(text@), relative_words()),
{
    let words = [
        "今天", "昨天", "明天", "后天", "前天",
        "上周", "本周", "下周", "上个月", "下个月",
        "去年", "今年", "明年",
        "刚才", "之前", "之后",
        "今天早上", "今天下午", "今天晚上",
        "昨天早上", "昨天下午", "昨天晚上",
        "tomorrow", "yesterday", "today",
        "last week", "next week", "last month", "next month",
    ];
    let s = array_as_slice(&words);
    assert(strs(s@) =~= relative_words());
    let l = lower(text);
    contains_any(l.as_str(), s)
}

/// Whether the content is to be given a date: it speaks of a relative time and
/// has no date yet.
pub open spec fn needs_anchor(content: Seq<char>) -> bool {
    has_any(lowercase(content), relative_words()) && !has_sub(content, "以记忆产生时为准"@)
}

/// The content with the date to which its time words refer.
pub open spec fn anchored(content: Seq<char>, date: Seq<char>) -> Seq<char> {
    if needs_anchor(content) {
        content + " （以记忆产生时为准："@ + date + "）"@
    } else {
        content
    }
}

/// `r` is the content with some date, where it needs one.
pub open spec fn is_anchored(content: Seq<char>, r: Seq<char>) -> bool {
    exists|date: Seq<char>| r == #[trigger] anchored(content, date)
}

/// The content with the date to which its time words refer.
pub fn anchor_with_date(content: &str, date: &str) -> (r: String)
    ensures
        r@ == anchored(content@, date@),
{
    let mut out: String = content.to_owned();
    if has_relative_time_word(content) && !contains(content, "以记忆产生时为准") {
        out.append(" （以记忆产生时为准：");
        out.append(date);
        out.append("）");
    }
    out
}

/// `chrono::TimeZone::timestamp_opt` of `chrono::Local`: the day of the instant as
/// `YYYY-MM-DD`, in the time zone of the machine; `None` where the instant has no day there.
/// Nothing is promised of it.
#[verifier::external_body]
fn local_day(seconds: i64) -> (r: Option<String>)
{
    chrono::TimeZone::timestamp_opt(&chrono::Local, seconds, 0).single().map(|t| t.format("%Y-%m-%d").to_string())
}

/// `chrono::Local::now`: today as `YYYY-MM-DD`, in the time zone of the machine. Nothing is
/// promised of it.
#[verifier::external_body]
pub(crate) fn local_today() -> (r: String)
{
    chrono::Local::now().format("%Y-%m-%d").to_string()
}

/// The day of a memory: its own, or today where it has none.
pub open spec fn day_or_today(own: Option<Seq<char>>, today: Seq<char>) -> Seq<char> {
    match own {
        Some(d) => d,
        None => today,
    }
}

/// The content of a memory with its day, or with today where it has none.
pub fn anchor_on_day(content: &str, own: Option<String>, today: &str) -> (r: String)
    ensures
        r@ == anchored(content@, day_or_today(opt_text(own), today@)),
{
    match own {
        Some(d) => anchor_with_date(content, d.as_str()),
        None => anchor_with_date(content, today),
    }
}

/// Whole seconds of a time in milliseconds, toward zero.
pub open spec fn whole_seconds(millis: i64) -> int {
    if millis >= 0 {
        millis as int / 1000
    } else {
        -((-millis) / 1000)
    }
}

pub fn seconds_of(millis: i64) -> (r: i64)
    ensures
        r == whole_seconds(millis),
{
    let m: i128 = millis as i128;
    let s: i128 = if m >= 0 {
        m / 1000
    } else {
        -((-m) / 1000)
    };
    s as i64
}

/// The content of a memory with the date on which it was made, where it speaks of
/// a relative time and has no date yet.
pub fn anchor_memory_content(m: &MemoryItem) -> (r: String)
    ensures
        is_anchored(m@.content, r@),
{
    if !has_relative_time_word(m.content.as_str()) || contains(
        m.content.as_str(),
        "以记忆产生时为准",
    ) {
        let r = m.content.clone();
        assert(r@ == anchored(m@.content, Seq::<char>::empty()));
        return r;
    }
    let own = local_day(seconds_of(m.timestamp));
    let today = local_today();
    let r = anchor_on_day(m.content.as_str(), own, today.as_str());
    assert(r@ == anchored(m@.content, day_or_today(opt_text(own), today@)));
    r
}

/// The contents of memories with their dates, one for each memory.
pub fn anchor_memories(memories: &[MemoryItem]) -> (out: Vec<String>)
    ensures
        out@.len() == memories@.len(),
        forall|i: int|
            0 <= i < out@.len() ==> is_anchored(memories@[i]@.content, (#[trigger] out@[i])@),
{
    let mut out: Vec<String> = Vec::new();
    let mut i: usize = 0;
    while i < memories.len()
        invariant
            i <= memories@.len(),
            out@.len() == i,
            forall|k: int|
                0 <= k < i ==> is_anchored(memories@[k]@.content, (#[trigger] out@[k])@),
        decreases memories@.len() - i,
    {
        out.push(anchor_memory_content(&memories[i]));
        i += 1;
    }
    out
}

/// The memories with dates in their contents; nothing else of them changes.
pub fn apply_time_anchor(memories: Vec<MemoryItem>) -> (out: Vec<MemoryItem>)
    ensures
        out@.len() == memories@.len(),
        forall|i: int|
            0 <= i < out@.len() ==> is_anchored(
                memories@[i]@.content,
                (#[trigger] out@[i])@.content,
            ) && out@[i]@ == (ItemView { content: out@[i]@.content, ..memories@[i]@ }),
{
    let mut out = memories;
    let mut i: usize = 0;
    while i < out.len()
        invariant
            i <= out@.len(),
            out@.len() == memories@.len(),
            forall|k: int|
                0 <= k < i ==> is_anchored(
                    memories@[k]@.content,
                    (#[trigger] out@[k])@.content,
                ) && out@[k]@ == (ItemView { content: out@[k]@.content, ..memories@[k]@ }),
            forall|k: int| i <= k < out@.len() ==> #[trigger] out@[k] == memories@[k],
        decreases out@.len() - i,
    {
        let mut m = out[i].clone();
        m.content = anchor_memory_content(&out[i]);
        out.set(i, m);
        i += 1;
    }
    out
}

/// A content that has a date is not given another one.
pub proof fn anchor_is_idempotent(content: Seq<char>, date: Seq<char>, other: Seq<char>)
    requires
        needs_anchor(content),
    ensures
        anchored(anchored(content, date), other) == anchored(content, date),
{
    reveal_strlit("以记忆产生时为准");
    reveal_strlit(" （以记忆产生时为准：");
    let t = anchored(content, date);
    let mark = "以记忆产生时为准"@;
    let at: int = content.len() as int + 2;
    assert(t.subrange(at, at + mark.len()) =~= mark);
    assert(crate::text::occurs_at(t, mark, at));
    assert(has_sub(t, mark));
}

} // verus!
