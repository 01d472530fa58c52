use vivian_memory::time_anchor::{anchor_memory_content, anchor_on_day, anchor_with_date, apply_time_anchor,
    has_relative_time_word};
use vivian_memory::types::{current_timestamp, Granularity, MemoryItem};

fn make_item(content: &str) -> MemoryItem {
    MemoryItem::new(content.to_string(), Granularity::Turn, 500_000)
}

#[test]
fn test_detect_relative_time() {
    assert!(has_relative_time_word("我昨天去看了电影"));
    assert!(has_relative_time_word("上周我们讨论过这个"));
    assert!(!has_relative_time_word("我去了电影院"));
}

#[test]
fn test_anchor_appended() {
    let m = make_item("我昨天说想吃火锅");
    let anchored = anchor_memory_content(&m);
    assert!(anchored.contains("以记忆产生时为准"));
    assert!(anchored.contains("我昨天说想吃火锅"));
}

#[test]
fn test_no_anchor_for_absolute_time() {
    let m = make_item("我2024年1月去了北京");
    let anchored = anchor_memory_content(&m);
    assert!(!anchored.contains("以记忆产生时为准"));
}

#[test]
fn test_no_duplicate_anchor() {
    let mut m = make_item("我昨天说想吃火锅 （以记忆产生时为准：2024-01-01）");
    m.timestamp = current_timestamp();
    let anchored = anchor_memory_content(&m);
    // 已有锚点不应重复追加
    assert!(!anchored.contains("以记忆产生时为准：2024-01-01） （以记忆产生时为准"));
}

#[test]
fn test_apply_to_batch() {
    let memories = vec![
        make_item("今天天气不错"),
        make_item("我去了公园"),
    ];
    let result = apply_time_anchor(memories);
    assert!(result[0].content.contains("以记忆产生时为准"));
    assert!(!result[1].content.contains("以记忆产生时为准"));
}

#[test]
fn a_given_date_is_added_once() {
    let once = anchor_with_date("我昨天说想吃火锅", "2024-01-01");
    assert_eq!(once, "我昨天说想吃火锅 （以记忆产生时为准：2024-01-01）");
    assert_eq!(anchor_with_date(&once, "2024-01-02"), once);
    assert_eq!(anchor_with_date("我去了公园", "2024-01-01"), "我去了公园");
}

#[test]
fn a_memory_without_a_day_counts_as_of_today() {
    let own = Some("2024-01-01".to_string());
    assert_eq!(anchor_on_day("昨天", own, "2024-05-05"), "昨天 （以记忆产生时为准：2024-01-01）");
    assert_eq!(anchor_on_day("昨天", None, "2024-05-05"), "昨天 （以记忆产生时为准：2024-05-05）");
    let mut m = make_item("昨天");
    m.timestamp = i64::MAX;
    assert!(anchor_memory_content(&m).starts_with("昨天 （以记忆产生时为准：20"));
}

#[test]
fn the_date_is_that_of_the_memory() {
    let mut m = make_item("YESTERDAY was fine");
    m.timestamp = 1_704_110_400_000;
    assert!(anchor_memory_content(&m).contains("2024-01-0"));
}
