use vivian_memory::time_stamped::{estimate_by_chars, estimate_tokens, fallback_summary, summary_from_reply,
    ChatMessage, TimeStampedMemory, SUMMARY_MESSAGE_FALLBACK, SUMMARY_TOKEN_THRESHOLD};
use vivian_memory::types::current_timestamp;

#[test]
fn test_detect_name_chinese() {
    assert!(TimeStampedMemory::detect_name_in_content("我叫张三"));
    assert!(TimeStampedMemory::detect_name_in_content("我是李四"));
    assert!(TimeStampedMemory::detect_name_in_content("我的名字是王五"));
    assert!(TimeStampedMemory::detect_name_in_content("叫我赵六"));
    // 不应匹配疑问句
    assert!(!TimeStampedMemory::detect_name_in_content("我是谁？"));
    assert!(!TimeStampedMemory::detect_name_in_content("你叫什么"));
}

#[test]
fn test_detect_name_english() {
    assert!(TimeStampedMemory::detect_name_in_content("My name is Vivian"));
    assert!(TimeStampedMemory::detect_name_in_content("我叫 Alice"));
}

#[test]
fn test_should_summarize_by_message_fallback() {
    let mut mem = TimeStampedMemory::new();
    // 80 条短消息（token 不会超阈值），触发消息数辅助上限
    for i in 0..SUMMARY_MESSAGE_FALLBACK {
        mem.add_message(ChatMessage::user(&format!("msg {}", i)), current_timestamp());
    }
    assert!(mem.should_summarize());
}

#[test]
fn test_should_not_summarize_small() {
    let mut mem = TimeStampedMemory::new();
    for i in 0..10 {
        mem.add_message(ChatMessage::user(&format!("msg {}", i)), current_timestamp());
    }
    assert!(!mem.should_summarize());
}

#[test]
fn summarizing_keeps_the_latest_messages() {
    let mut mem = TimeStampedMemory::new();
    mem.add_message(ChatMessage::user(&"一二三四五六七八九十".repeat(3_000)), 1);
    for i in 0..10 {
        mem.add_message(ChatMessage::user(&format!("msg {}", i)), 2 + i);
    }
    assert!(mem.total_tokens() > SUMMARY_TOKEN_THRESHOLD as u128);
    assert!(mem.should_summarize());
    let removed = mem.summarize();
    assert_eq!(removed.len(), 3);
    assert_eq!(mem.get_messages().len(), 8);
    assert_eq!(mem.get_summaries().len(), 0);
    mem.commit_summary("test summary".to_string(), &removed, current_timestamp());
    assert_eq!(mem.get_summaries().len(), 1);
    assert_eq!(mem.recent_summary(), "test summary");
}

#[test]
fn a_summary_falls_back_to_the_messages() {
    let list = vec![ChatMessage::user("你好")];
    assert_eq!(summary_from_reply(Some(" 摘要 ".to_string()), &list), "摘要");
    assert_eq!(summary_from_reply(None, &list), fallback_summary(&list));
    assert!(fallback_summary(&list).contains("你好"));
}

#[test]
fn tokens_are_counted() {
    assert_eq!(estimate_tokens(""), 0);
    assert_eq!(estimate_tokens("hello world"), 2);
    assert!(estimate_tokens("你好世界") > 0);
}

#[test]
fn long_texts_may_hold_few_tokens() {
    let chinese = "这是一段很长的文本用于测试 token 阈值触发摘要。".repeat(500);
    assert!(estimate_tokens(&chinese) <= SUMMARY_TOKEN_THRESHOLD);
    assert!(estimate_by_chars(&chinese) <= SUMMARY_TOKEN_THRESHOLD);
    assert!(estimate_tokens(&"x".repeat(100_000)) <= SUMMARY_TOKEN_THRESHOLD);
}

#[test]
fn clearing_forgets_everything() {
    let mut mem = TimeStampedMemory::new();
    mem.add_message(ChatMessage::user("x"), 7);
    assert_eq!(mem.last_interaction_time(), Some(7));
    mem.clear();
    assert_eq!(mem.last_interaction_time(), None);
    assert!(mem.get_messages().is_empty());
    assert_eq!(mem.recent_summary(), "");
}
