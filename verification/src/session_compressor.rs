//! The recap of an earlier conversation, put before its latest messages.

use crate::text::{blank, is_blank, trim, trimmed};
use crate::time_stamped::{ChatMessage, MessageView, TimeStampedMemory};
use vstd::prelude::*;
use vstd::string::*;

verus! {

/// The text of the recap of a summary.
pub open spec fn recap_text(summary: Seq<char>) -> Seq<char> {
    "[CONVERSATION RECAP]\n"@ + trim(summary)
        + "\n[END RECAP]\n\n注意：以上是此前对话的摘要。你的近期对话历史紧随其后。请自然延续话题，不要重复摘要中的内容。"@
}

/// The latest summary of a conversation; empty where there is none.
pub open spec fn latest_summary(tsm: TimeStampedMemory) -> Seq<char> {
    if tsm.digests().len() == 0 {
        Seq::<char>::empty()
    } else {
        tsm.digests().last().content@
    }
}

/// The recap of a conversation; none where its latest summary is blank.
pub open spec fn recap(tsm: TimeStampedMemory) -> Option<MessageView> {
    if is_blank(latest_summary(tsm)) {
        None
    } else {
        Some(
            MessageView {
                role: "system"@,
                content: recap_text(latest_summary(tsm)),
                timestamp: None,
            },
        )
    }
}

/// The recap of a conversation, if it has a summary.
pub fn build_conversation_recap(tsm: &TimeStampedMemory) -> (r: Option<ChatMessage>)
    ensures
        (match r {
            Some(m) => Some(m@),
            None => None,
        }) == recap(*tsm),
{
    let summary = tsm.recent_summary();
    if blank(summary.as_str()) {
        return None;
    }
    let t = trimmed(summary.as_str());
    let mut text: String = "[CONVERSATION RECAP]\n".to_owned();
    text.append(t.as_str());
    text.append(
        "\n[END RECAP]\n\n注意：以上是此前对话的摘要。你的近期对话历史紧随其后。请自然延续话题，不要重复摘要中的内容。",
    );
    Some(ChatMessage::system(text.as_str()))
}

/// Puts the recap, if there is one, before the messages.
pub fn inject_recap_if_available(messages: &mut Vec<ChatMessage>, tsm: &TimeStampedMemory)
    ensures
        match recap(*tsm) {
            Some(m) => final(messages)@.len() == old(messages)@.len() + 1 && final(messages)@[0]@
                == m && final(messages)@.skip(1) == old(messages)@,
            None => final(messages)@ == old(messages)@,
        },
{
    if let Some(m) = build_conversation_recap(tsm) {
        let ghost was = messages@;
        messages.insert(0, m);
        assert(messages@.skip(1) =~= was);
    }
}

} // verus!
