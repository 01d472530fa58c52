//! The messages of a conversation with their times: when to summarise, what to
//! summarise, and the summaries.

use crate::memory_router::PromptLanguage;
use crate::pattern::{is_match, regex_spans};
use crate::text::{blank, chars_of, is_blank, join, join_strings, same, string_of, strs, texts, trim, trimmed};
use vstd::array::*;
use vstd::prelude::*;
use vstd::slice::*;
use vstd::string::*;

verus! {

/// Number of tokens beyond which the conversation is summarised.
pub const SUMMARY_TOKEN_THRESHOLD: usize = 21000;

/// Number of messages from which the conversation is summarised, whatever the
/// tokens.
pub const SUMMARY_MESSAGE_FALLBACK: usize = 150;

/// Number of latest messages that a summary leaves.
pub const RETAIN_RECENT: usize = 8;

/// Importance of a message unless it is given another.
pub const DEFAULT_IMPORTANCE: i64 = 500_000;

// ---------------------------------------------------------------------------
// Tokens
// ---------------------------------------------------------------------------

/// The number of tokens that the `cl100k_base` tokenizer makes of a text.
pub uninterp spec fn cl100k_tokens(text: Seq<char>) -> Option<usize>;

/// `tiktoken_rs::CoreBPE::encode` of the `cl100k_base` tokenizer with all special
/// tokens allowed: the number of tokens, a function of the text alone; `None` where
/// the text cannot be encoded. The encoding is not spelled out.
#[verifier::external_body]
fn count_cl100k(text: &str) -> (r: Option<usize>)
    ensures
        r == cl100k_tokens(text@),
{
    let bpe = tiktoken_rs::cl100k_base_singleton();
    bpe.encode(text, &bpe.special_tokens()).ok().map(|t| t.0.len())
}

/// A quarter of a token for an ASCII character, one and a half for any other, in
/// quarters.
pub open spec fn quarter_tokens(s: Seq<char>) -> nat
    decreases s.len(),
{
    if s.len() == 0 {
        0
    } else {
        quarter_tokens(s.drop_last()) + (if (s.last() as u32) < 128 {
            1nat
        } else {
            6nat
        })
    }
}

/// The tokens of a text by its characters, rounded up.
pub open spec fn rough_tokens(s: Seq<char>) -> usize {
    let n = (quarter_tokens(s) + 3) / 4;
    if n > usize::MAX {
        usize::MAX
    } else {
        n as usize
    }
}

/// The tokens of a text: what the tokenizer counts, or an estimate by characters
/// where it cannot.
pub open spec fn tokens_or_rough(counted: Option<usize>, s: Seq<char>) -> usize {
    match counted {
        Some(n) => n,
        None => rough_tokens(s),
    }
}

/// An estimate of the tokens of a text by its characters.
pub fn estimate_by_chars(text: &str) -> (n: usize)
    ensures
        n == rough_tokens(text@),
{
    let cs = chars_of(text);
    let mut q: u128 = 0;
    let mut i: usize = 0;
    let total: usize = cs.len();
    while i < total
        invariant
            i <= total,
            total == cs@.len(),
            cs@ == text@,
            q <= i * 6,
            q == quarter_tokens(cs@.take(i as int)),
        decreases cs@.len() - i,
    {
        assert(cs@.take(i + 1).drop_last() =~= cs@.take(i as int));
        assert(cs@.take(i + 1).last() == cs@[i as int]);
        if (cs[i] as u32) < 128 {
            q = q + 1;
        } else {
            q = q + 6;
        }
        i += 1;
    }
    assert(cs@.take(i as int) =~= cs@);
    let n: u128 = (q + 3) / 4;
    if n > usize::MAX as u128 {
        usize::MAX
    } else {
        n as usize
    }
}

/// The tokens of a text, given what the tokenizer counted.
pub fn tokens_from_count(counted: Option<usize>, text: &str) -> (n: usize)
    ensures
        n == tokens_or_rough(counted, text@),
{
    match counted {
        Some(n) => n,
        None => estimate_by_chars(text),
    }
}

/// The tokens of a text.
pub fn estimate_tokens(text: &str) -> (n: usize)
    ensures
        n == tokens_or_rough(cl100k_tokens(text@), text@),
{
    tokens_from_count(count_cl100k(text), text)
}

// ---------------------------------------------------------------------------
// Names
// ---------------------------------------------------------------------------

/// The ways in which somebody tells a name.
pub open spec fn name_patterns() -> Seq<Seq<char>> {
    seq![
        r"我是\s*[一-龥]{2,}"@,
        r"我是\s*[A-Za-z]{2,}"@,
        r"我叫\s*[一-龥]{2,}"@,
        r"我叫\s*[A-Za-z]{2,}"@,
        r"我的名字是\s*[一-龥]{2,}"@,
        r"我的名字是\s*[A-Za-z]{2,}"@,
        r"叫我\s*[一-龥]{2,}"@,
        r"叫我\s*[A-Za-z]{2,}"@,
        r"名字是\s*[一-龥]{2,}"@,
        r"名字是\s*[A-Za-z]{2,}"@,
        r"称呼我\s*[一-龥]{2,}"@,
        r"称呼我\s*[A-Za-z]{2,}"@,
        r"My name is\s*[一-龥]{2,}"@,
        r"My name is\s*[A-Za-z]{2,}"@,
    ]
}

/// Whether one of the patterns is found in the text.
pub open spec fn any_found(patterns: Seq<Seq<char>>, text: Seq<char>) -> bool {
    exists|i: int| 0 <= i < patterns.len() && regex_spans(#[trigger] patterns[i], text).len() > 0
}

fn find_any(patterns: &[&str], text: &str) -> (r: bool)
    ensures
        r == any_found(strs(patterns@), text@),
{
    let mut i: usize = 0;
    while i < patterns.len()
        invariant
            i <= patterns@.len(),
            forall|k: int|
                0 <= k < i ==> regex_spans(#[trigger] strs(patterns@)[k], text@).len() == 0,
        decreases patterns@.len() - i,
    {
        assert(strs(patterns@)[i as int] == patterns@[i as int]@);
        if is_match(patterns[i], text) {
            return true;
        }
        i += 1;
    }
    false
}

// ---------------------------------------------------------------------------
// Messages
// ---------------------------------------------------------------------------

/// A message of a conversation.
#[derive(Debug)]
pub struct ChatMessage {
    /// `user`, `assistant` or `system`.
    pub role: String,
    pub content: String,
    pub timestamp: Option<i64>,
}

/// What a message is.
pub struct MessageView {
    pub role: Seq<char>,
    pub content: Seq<char>,
    pub timestamp: Option<i64>,
}

impl View for ChatMessage {
    type V = MessageView;

    open spec fn view(&self) -> MessageView {
        MessageView { role: self.role@, content: self.content@, timestamp: self.timestamp }
    }
}

impl Clone for ChatMessage {
    fn clone(&self) -> (r: ChatMessage)
        ensures
            r@ == self@,
            r == *self,
    {
        ChatMessage {
            role: self.role.clone(),
            content: self.content.clone(),
            timestamp: self.timestamp,
        }
    }
}

impl ChatMessage {
    /// A message of the user, without a time.
    pub fn user(content: &str) -> (r: ChatMessage)
        ensures
            r@ == (MessageView { role: "user"@, content: content@, timestamp: None }),
    {
        ChatMessage { role: "user".to_owned(), content: content.to_owned(), timestamp: None }
    }

    /// A message of the system, without a time.
    pub fn system(content: &str) -> (r: ChatMessage)
        ensures
            r@ == (MessageView { role: "system"@, content: content@, timestamp: None }),
    {
        ChatMessage { role: "system".to_owned(), content: content.to_owned(), timestamp: None }
    }
}

/// A message with its time and importance.
#[derive(Debug)]
pub struct TimeStampedMessage {
    pub content: String,
    /// `human` or `ai`.
    pub message_type: String,
    pub timestamp: i64,
    pub is_summarized: bool,
    pub importance: i64,
}

impl TimeStampedMessage {
    /// A message of ordinary importance, made at `now`.
    pub fn new(content: &str, message_type: &str, now: i64) -> (r: TimeStampedMessage)
        ensures
            r.content@ == content@,
            r.message_type@ == message_type@,
            r.timestamp == now,
            !r.is_summarized,
            r.importance == DEFAULT_IMPORTANCE,
    {
        TimeStampedMessage {
            content: content.to_owned(),
            message_type: message_type.to_owned(),
            timestamp: now,
            is_summarized: false,
            importance: DEFAULT_IMPORTANCE,
        }
    }

    pub fn with_importance(self, importance: i64) -> (r: TimeStampedMessage)
        ensures
            r == (TimeStampedMessage { importance, ..self }),
    {
        TimeStampedMessage { importance, ..self }
    }
}

/// A summary with the time that it covers.
#[derive(Debug)]
pub struct TimeStampedSummary {
    pub content: String,
    pub start_time: i64,
    pub end_time: i64,
}

/// A conversation and its summaries.
pub struct TimeStampedMemory {
    messages: Vec<ChatMessage>,
    timestamps: Vec<i64>,
    summaries: Vec<TimeStampedSummary>,
    last_interaction: Option<i64>,
}

/// The tokens of the messages together.
pub open spec fn tokens_in(m: Seq<ChatMessage>) -> nat
    decreases m.len(),
{
    if m.len() == 0 {
        0
    } else {
        tokens_in(m.drop_last()) + tokens_or_rough(
            cl100k_tokens(m.last().content@),
            m.last().content@,
        ) as nat
    }
}

/// Whether a conversation of that size is to be summarised.
pub open spec fn summary_due(tokens: nat, messages: nat) -> bool {
    tokens > SUMMARY_TOKEN_THRESHOLD || messages >= SUMMARY_MESSAGE_FALLBACK
}

/// Whether a conversation of that size is to be summarised.
pub fn is_summary_due(tokens: u128, messages: usize) -> (r: bool)
    ensures
        r == summary_due(tokens as nat, messages as nat),
{
    tokens > SUMMARY_TOKEN_THRESHOLD as u128 || messages >= SUMMARY_MESSAGE_FALLBACK
}

/// How many of the messages a summary takes.
pub open spec fn summary_split(messages: nat) -> int {
    if messages <= RETAIN_RECENT {
        0
    } else {
        messages - RETAIN_RECENT
    }
}

impl TimeStampedMemory {
    /// The messages, oldest first.
    pub closed spec fn history(&self) -> Seq<ChatMessage> {
        self.messages@
    }

    /// The times of the messages.
    pub closed spec fn times(&self) -> Seq<i64> {
        self.timestamps@
    }

    /// The summaries, oldest first.
    pub closed spec fn digests(&self) -> Seq<TimeStampedSummary> {
        self.summaries@
    }

    /// When the last message came.
    pub closed spec fn latest(&self) -> Option<i64> {
        self.last_interaction
    }

    /// Every message has its time.
    pub open spec fn well_formed(&self) -> bool {
        self.times().len() == self.history().len()
    }

    /// An empty conversation.
    pub fn new() -> (r: TimeStampedMemory)
        ensures
            r.history().len() == 0,
            r.digests().len() == 0,
            r.latest() is None,
            r.well_formed(),
    {
        TimeStampedMemory {
            messages: Vec::new(),
            timestamps: Vec::new(),
            summaries: Vec::new(),
            last_interaction: None,
        }
    }

    /// Whether somebody tells a name in the content.
    pub fn detect_name_in_content(content: &str) -> (r: bool)
        ensures
            r == any_found(name_patterns(), content@),
    {
        let patterns = [
            r"我是\s*[一-龥]{2,}",
            r"我是\s*[A-Za-z]{2,}",
            r"我叫\s*[一-龥]{2,}",
            r"我叫\s*[A-Za-z]{2,}",
            r"我的名字是\s*[一-龥]{2,}",
            r"我的名字是\s*[A-Za-z]{2,}",
            r"叫我\s*[一-龥]{2,}",
            r"叫我\s*[A-Za-z]{2,}",
            r"名字是\s*[一-龥]{2,}",
            r"名字是\s*[A-Za-z]{2,}",
            r"称呼我\s*[一-龥]{2,}",
            r"称呼我\s*[A-Za-z]{2,}",
            r"My name is\s*[一-龥]{2,}",
            r"My name is\s*[A-Za-z]{2,}",
        ];
        let s = array_as_slice(&patterns);
        assert(strs(s@) =~= name_patterns());
        find_any(s, content)
    }

    /// Adds a message; one without a time came at `now`.
    pub fn add_message(&mut self, message: ChatMessage, now: i64)
        ensures
            final(self).history() == old(self).history().push(message),
            final(self).times() == old(self).times().push(
                match message.timestamp {
                    Some(t) => t,
                    None => now,
                },
            ),
            final(self).latest() == Some(
                match message.timestamp {
                    Some(t) => t,
                    None => now,
                },
            ),
            final(self).digests() == old(self).digests(),
            old(self).well_formed() ==> final(self).well_formed(),
    {
        let t: i64 = match message.timestamp {
            Some(t) => t,
            None => now,
        };
        self.timestamps.push(t);
        self.last_interaction = Some(t);
        self.messages.push(message);
    }

    pub fn get_messages(&self) -> (r: &Vec<ChatMessage>)
        ensures
            r@ == self.history(),
    {
        &self.messages
    }

    pub fn get_summaries(&self) -> (r: &Vec<TimeStampedSummary>)
        ensures
            r@ == self.digests(),
    {
        &self.summaries
    }

    /// The tokens of the messages together.
    pub fn total_tokens(&self) -> (n: u128)
        ensures
            n == tokens_in(self.history()),
    {
        let mut n: u128 = 0;
        let mut i: usize = 0;
        let ghost all = self.messages@;
        let count: usize = self.messages.len();
        while i < count
            invariant
                i <= count,
                count == all.len(),
                all == self.messages@,
                n == tokens_in(all.take(i as int)),
                n <= i * usize::MAX,
            decreases all.len() - i,
        {
            assert(all.take(i + 1).drop_last() =~= all.take(i as int));
            assert(all.take(i + 1).last() == all[i as int]);
            let k: usize = estimate_tokens(self.messages[i].content.as_str());
            proof {
                assert(i * usize::MAX + usize::MAX == (i + 1) * usize::MAX) by (nonlinear_arith);
                assert((i + 1) * usize::MAX <= usize::MAX * usize::MAX) by (nonlinear_arith)
                    requires
                        i + 1 <= usize::MAX,
                ;
                assert(usize::MAX * usize::MAX <= u128::MAX) by (nonlinear_arith)
                    requires
                        usize::MAX <= 0xffff_ffff_ffff_ffff,
                ;
            }
            n = n + k as u128;
            i += 1;
        }
        assert(all.take(i as int) =~= all);
        n
    }

    /// Whether the conversation is to be summarised.
    pub fn should_summarize(&self) -> (r: bool)
        ensures
            r == summary_due(tokens_in(self.history()), self.history().len()),
    {
        is_summary_due(self.total_tokens(), self.messages.len())
    }

    /// Where a summary is due, takes out all messages but the latest.
    pub fn summarize(&mut self) -> (removed: Vec<ChatMessage>)
        requires
            old(self).well_formed(),
        ensures
            final(self).well_formed(),
            final(self).digests() == old(self).digests(),
            final(self).latest() == old(self).latest(),
            summary_due(tokens_in(old(self).history()), old(self).history().len()) ==> removed@
                == old(self).history().take(summary_split(old(self).history().len()))
                && final(self).history() == old(self).history().skip(
                summary_split(old(self).history().len()),
            ) && final(self).times() == old(self).times().skip(
                summary_split(old(self).history().len()),
            ),
            !summary_due(tokens_in(old(self).history()), old(self).history().len())
                ==> removed@.len() == 0 && final(self).history() == old(self).history() && final(self).times() == old(self).times(),
    {
        if !self.should_summarize() {
            return Vec::new();
        }
        self.cut_old()
    }

    /// Takes out all messages but the latest.
    pub fn cut_old(&mut self) -> (removed: Vec<ChatMessage>)
        requires
            old(self).well_formed(),
        ensures
            final(self).well_formed(),
            final(self).digests() == old(self).digests(),
            final(self).latest() == old(self).latest(),
            removed@ == old(self).history().take(summary_split(old(self).history().len())),
            final(self).history() == old(self).history().skip(
                summary_split(old(self).history().len()),
            ),
            final(self).times() == old(self).times().skip(
                summary_split(old(self).history().len()),
            ),
    {
        let n: usize = self.messages.len();
        let split: usize = if n <= RETAIN_RECENT {
            0
        } else {
            n - RETAIN_RECENT
        };
        let ghost m0 = self.messages@;
        let ghost t0 = self.timestamps@;
        let rest = self.messages.split_off(split);
        let mut removed: Vec<ChatMessage> = rest;
        std::mem::swap(&mut removed, &mut self.messages);
        let later = self.timestamps.split_off(split);
        self.timestamps = later;
        assert(removed@ =~= m0.take(split as int));
        assert(self.messages@ =~= m0.skip(split as int));
        assert(self.timestamps@ =~= t0.skip(split as int));
        removed
    }

    /// Adds the summary of the messages that were taken out; without messages there
    /// is nothing to add. A message without a time counts as one of `now`.
    pub fn commit_summary(&mut self, content: String, removed: &Vec<ChatMessage>, now: i64)
        ensures
            final(self).history() == old(self).history(),
            final(self).times() == old(self).times(),
            final(self).latest() == old(self).latest(),
            final(self).digests() == (if removed@.len() == 0 {
                old(self).digests()
            } else {
                old(self).digests().push(
                    TimeStampedSummary {
                        content,
                        start_time: match removed@[0].timestamp {
                            Some(t) => t,
                            None => now,
                        },
                        end_time: match removed@.last().timestamp {
                            Some(t) => t,
                            None => now,
                        },
                    },
                )
            }),
    {
        if removed.len() == 0 {
            return;
        }
        let start_time: i64 = match removed[0].timestamp {
            Some(t) => t,
            None => now,
        };
        let end_time: i64 = match removed[removed.len() - 1].timestamp {
            Some(t) => t,
            None => now,
        };
        self.summaries.push(TimeStampedSummary { content, start_time, end_time });
    }

    /// The latest summary; empty where there is none.
    pub fn recent_summary(&self) -> (r: String)
        ensures
            r@ == (if self.digests().len() == 0 {
                Seq::<char>::empty()
            } else {
                self.digests().last().content@
            }),
    {
        let n: usize = self.summaries.len();
        if n == 0 {
            String::new()
        } else {
            self.summaries[n - 1].content.clone()
        }
    }

    /// When the last message came.
    pub fn last_interaction_time(&self) -> (r: Option<i64>)
        ensures
            r == self.latest(),
    {
        self.last_interaction
    }

    /// Forgets everything.
    pub fn clear(&mut self)
        ensures
            final(self).history().len() == 0,
            final(self).digests().len() == 0,
            final(self).latest() is None,
            final(self).well_formed(),
    {
        self.messages.clear();
        self.timestamps.clear();
        self.summaries.clear();
        self.last_interaction = None;
    }
}

impl Default for TimeStampedMemory {
    fn default() -> (r: TimeStampedMemory)
        ensures
            r.history().len() == 0,
            r.digests().len() == 0,
            r.latest() is None,
            r.well_formed(),
    {
        TimeStampedMemory::new()
    }
}

/// What is taken out for a summary and what stays are the conversation, and at
/// most the latest messages stay.
pub proof fn summary_loses_nothing(history: Seq<ChatMessage>)
    ensures
        history.take(summary_split(history.len())) + history.skip(summary_split(history.len()))
            == history,
        history.skip(summary_split(history.len())).len() <= RETAIN_RECENT,
{
    assert(history.take(summary_split(history.len())) + history.skip(
        summary_split(history.len()),
    ) =~= history);
}

// ---------------------------------------------------------------------------
// Writing the summary
// ---------------------------------------------------------------------------

/// A line of the conversation for the model: the time of day, who speaks, what.
pub open spec fn transcript_line(m: MessageView, clock: Option<Seq<char>>) -> Seq<char> {
    (match clock {
        Some(t) => "["@ + t + "] "@,
        None => Seq::<char>::empty(),
    }) + (if m.role == "user"@ {
        "[User says to me]"@
    } else {
        "[I say to User]"@
    }) + " "@ + m.content
}

/// A line of the conversation for the model; `clock` is the time of day as `HH:MM`.
pub fn render_line(m: &ChatMessage, clock: Option<&str>) -> (out: String)
    ensures
        out@ == transcript_line(
            m@,
            match clock {
                Some(t) => Some(t@),
                None => None,
            },
        ),
{
    let mut out: String = String::new();
    if let Some(t) = clock {
        out.append("[");
        out.append(t);
        out.append("] ");
    }
    let ghost stamp = out@;
    assert(stamp =~= match clock {
        Some(t) => "["@ + t@ + "] "@,
        None => Seq::<char>::empty(),
    });
    if same(m.role.as_str(), "user") {
        out.append("[User says to me]");
    } else {
        out.append("[I say to User]");
    }
    out.append(" ");
    out.append(m.content.as_str());
    out
}

/// A line of the summary without a model.
pub open spec fn plain_line(m: ChatMessage) -> Seq<char> {
    (if m.role@ == "user"@ {
        "User"@
    } else {
        "AI"@
    }) + ": "@ + m.content@
}

/// The summary without a model: the messages, at most two hundred characters of
/// them.
pub open spec fn plain_summary(messages: Seq<ChatMessage>) -> Seq<char> {
    let joined = join(messages.map_values(|m: ChatMessage| plain_line(m)), "\n"@);
    if joined.len() > 200 {
        "Conversation Summary: "@ + joined.take(200) + "..."@
    } else {
        "Conversation Summary: "@ + joined
    }
}

/// The summary without a model.
pub fn fallback_summary(messages: &Vec<ChatMessage>) -> (out: String)
    ensures
        out@ == plain_summary(messages@),
{
    let ghost all = messages@.map_values(|m: ChatMessage| plain_line(m));
    let mut parts: Vec<String> = Vec::new();
    let mut i: usize = 0;
    assert(texts(parts@) =~= all.take(0));
    while i < messages.len()
        invariant
            i <= messages@.len(),
            all == messages@.map_values(|m: ChatMessage| plain_line(m)),
            texts(parts@) == all.take(i as int),
        decreases messages@.len() - i,
    {
        let m = &messages[i];
        let mut p: String = if same(m.role.as_str(), "user") {
            "User".to_owned()
        } else {
            "AI".to_owned()
        };
        p.append(": ");
        p.append(m.content.as_str());
        assert(p@ == all[i as int]);
        let ghost prev = texts(parts@);
        parts.push(p);
        assert(texts(parts@) =~= prev.push(all[i as int]));
        i += 1;
        assert(all.take(i as int) =~= all.take(i - 1).push(all[i - 1]));
    }
    assert(all.take(i as int) =~= all);
    let joined = join_strings(&parts, "\n");
    let cs = chars_of(joined.as_str());
    let mut out: String = "Conversation Summary: ".to_owned();
    if cs.len() > 200 {
        let head = slice_subrange(cs.as_slice(), 0, 200);
        assert(head@ =~= joined@.take(200));
        let h = string_of(head);
        out.append(h.as_str());
        out.append("...");
    } else {
        out.append(joined.as_str());
    }
    out
}

/// The summary, given the reply of the model: the reply unless it is missing or
/// blank.
pub fn summary_from_reply(reply: Option<String>, messages: &Vec<ChatMessage>) -> (out: String)
    ensures
        out@ == (match reply {
            Some(t) => if is_blank(t@) {
                plain_summary(messages@)
            } else {
                trim(t@)
            },
            None => plain_summary(messages@),
        }),
{
    match reply {
        Some(t) => {
            if blank(t.as_str()) {
                fallback_summary(messages)
            } else {
                trimmed(t.as_str())
            }
        },
        None => fallback_summary(messages),
    }
}

/// What a model is asked to do with a conversation.
pub const COMPRESS_ENGLISH: &'static str = "Compress the following conversation into a concise summary (within 150 words), preserving key facts, entity names mentioned by the user, emotions, and important events.\nRequirements:\n1. Third-person narration, naturally resolving pronouns (e.g., replace 'he' with the specific person's name)\n2. Preserve temporal order (what happened first, what happened later)\n3. Do not add explanations or comments; output only the summary content\n\nConversation:\n";

/// What stands behind the conversation.
pub const COMPRESS_ENGLISH_TAIL: &'static str = "\n\nSummary:";

/// What a model is asked to do with a conversation.
pub const COMPRESS_JAPANESE: &'static str = "以下の会話を簡潔な要約に圧縮してください（150文字以内）。重要な事実、ユーザーが言及したエンティティ名、感情、重要なイベントを保持すること。\n要件：\n1. 三人称で述べ、代名詞を自然に解消する（例：「彼」を具体的な名前に置き換える）\n2. 時系列を保持する（先に何が起きたか、後に何が起きたか）\n3. 説明やコメントを追加せず、要約内容のみを出力する\n\n会話内容:\n";

/// What stands behind the conversation.
pub const COMPRESS_JAPANESE_TAIL: &'static str = "\n\n要約:";

/// What a model is asked to do with a conversation.
pub const COMPRESS_CHINESE: &'static str = "请将以下对话压缩为一段简洁的摘要（150字以内），保留关键事实、用户提到的实体名、情绪和重要事件。\n要求：\n1. 第三人称陈述，自然消解代词（如'他'替换为具体人名）\n2. 保留时序（先发生了什么，后发生了什么）\n3. 不要添加解释或评论，只输出摘要内容\n\n对话内容:\n";

/// What stands behind the conversation.
pub const COMPRESS_CHINESE_TAIL: &'static str = "\n\n摘要:";

/// The lines of a conversation for the model; `clocks` are the times of day.
pub open spec fn transcript(messages: Seq<ChatMessage>, clocks: Seq<Option<String>>) -> Seq<char> {
    join(
        Seq::new(
            messages.len(),
            |i: int| transcript_line(messages[i]@, crate::text::opt_text(clocks[i])),
        ),
        "\n"@,
    )
}

/// The question for a summary of a conversation.
pub open spec fn compress_question(lang: PromptLanguage, conversation: Seq<char>) -> Seq<char> {
    match lang {
        PromptLanguage::English => COMPRESS_ENGLISH@ + conversation + COMPRESS_ENGLISH_TAIL@,
        PromptLanguage::Japanese => COMPRESS_JAPANESE@ + conversation + COMPRESS_JAPANESE_TAIL@,
        PromptLanguage::Chinese => COMPRESS_CHINESE@ + conversation + COMPRESS_CHINESE_TAIL@,
    }
}

/// The question for a summary of a conversation; `clocks` are the times of day of its
/// messages.
pub fn compress_prompt(
    lang: PromptLanguage,
    messages: &Vec<ChatMessage>,
    clocks: &Vec<Option<String>>,
) -> (r: String)
    requires
        clocks@.len() == messages@.len(),
    ensures
        r@ == compress_question(lang, transcript(messages@, clocks@)),
{
    let ghost all = Seq::new(
        messages@.len(),
        |i: int| transcript_line(messages@[i]@, crate::text::opt_text(clocks@[i])),
    );
    let mut lines: Vec<String> = Vec::new();
    let mut i: usize = 0;
    while i < messages.len()
        invariant
            i <= messages@.len(),
            clocks@.len() == messages@.len(),
            all == Seq::new(
                messages@.len(),
                |i: int| transcript_line(messages@[i]@, crate::text::opt_text(clocks@[i])),
            ),
            lines@.len() == i,
            forall|k: int| 0 <= k < i ==> (#[trigger] lines@[k])@ == all[k],
        decreases messages@.len() - i,
    {
        let clock = match &clocks[i] {
            Some(t) => Some(t.as_str()),
            None => None,
        };
        lines.push(render_line(&messages[i], clock));
        i += 1;
    }
    assert(texts(lines@) =~= all);
    let conversation = join_strings(&lines, "\n");
    let (head, tail): (&'static str, &'static str) = match lang {
        PromptLanguage::English => (COMPRESS_ENGLISH, COMPRESS_ENGLISH_TAIL),
        PromptLanguage::Japanese => (COMPRESS_JAPANESE, COMPRESS_JAPANESE_TAIL),
        PromptLanguage::Chinese => (COMPRESS_CHINESE, COMPRESS_CHINESE_TAIL),
    };
    let mut out: String = head.to_owned();
    out.append(conversation.as_str());
    out.append(tail);
    out
}

} // verus!
