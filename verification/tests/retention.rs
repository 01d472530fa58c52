use vivian_memory::manager::MemoryManager;
use vivian_memory::recycle_bin::{RecycleBin, RecycleBinData};
use vivian_memory::retention::{extract_memory_type, plan_consolidation, MemoryExpirationRule, MemoryRetentionGuard,
    MemoryRetentionPolicy, QuadraticDecay, ARCHIVE_DAYS, ARCHIVE_THRESHOLD, DECAY_MILLIS, HOUR_MILLIS};
use vivian_memory::types::{current_timestamp, Granularity, MemoryItem, MemoryStoreData, MetaValue};

fn hours(n: i128) -> i128 {
    n * HOUR_MILLIS as i128
}

#[test]
fn test_should_keep_always() {
    assert!(MemoryRetentionPolicy::should_keep("preference", 100_000, hours(1000)));
    assert!(MemoryRetentionPolicy::should_keep("identity", 100_000, hours(1000)));
    assert!(MemoryRetentionPolicy::should_keep("important_event", 100_000, hours(1000)));
    assert!(MemoryRetentionPolicy::should_keep("user_preferences", 100_000, hours(1000)));
}

#[test]
fn test_should_keep_can_delete() {
    assert!(!MemoryRetentionPolicy::should_keep("casual_conversation", 200_000, hours(25)));
    assert!(!MemoryRetentionPolicy::should_keep("temporary_context", 400_000, hours(73)));
    assert!(MemoryRetentionPolicy::should_keep("casual_conversation", 600_000, hours(100)));
}

#[test]
fn test_default_rules() {
    let c = MemoryRetentionGuard::new();
    assert_eq!(c.rules().len(), 6);
    assert_eq!(c.rules()[0].memory_type, "casual_conversation");
    assert_eq!(c.rules()[1].memory_type, "temporary_context");
    assert_eq!(c.rules()[2].memory_type, "long_term");
    assert_eq!(c.rules()[3].memory_type, "knowledge");
    assert_eq!(c.rules()[4].memory_type, "insight");
    assert_eq!(c.rules()[5].memory_type, "inner_monologue");
    assert_eq!(c.rules()[0].max_age_hours, Some(24_000_000));
    assert_eq!(c.rules()[1].max_age_hours, Some(6_000_000));
    assert_eq!(c.rules()[2].max_age_hours, Some(720_000_000));
    assert_eq!(c.rules()[0].max_count, Some(100));
    assert_eq!(c.rules()[1].max_count, Some(50));
    assert_eq!(c.rules()[2].min_importance, 300_000);
    assert_eq!(c.rules()[3].max_count, Some(500));
    assert!(c.rules()[3].evict_by_score);
    assert_eq!(c.rules()[4].max_count, Some(100));
    assert!(c.rules()[4].evict_by_score);
    assert_eq!(c.rules()[5].max_count, Some(200));
    assert_eq!(c.rules()[5].max_age_hours, Some(168_000_000));
    assert_eq!(c.rules()[5].min_importance, 1_000_000);
}

fn make_evidence_memory(
    content: &str,
    reinforcement: i64,
    disputation: i64,
    protected: bool,
    sub_zero_days: u32,
) -> (MemoryItem, i64) {
    let mut m = MemoryItem::new(content.to_string(), Granularity::Summary, 500_000);
    m.reinforcement = reinforcement;
    m.disputation = disputation;
    m.protected = protected;
    m.sub_zero_days = sub_zero_days;
    (m, reinforcement - disputation)
}

#[test]
fn test_protected_memory_never_expires() {
    let rules = MemoryRetentionGuard::default_rules();
    let (m, score) = make_evidence_memory("受保护的事实", 0, 100_000_000, true, 100);
    assert!(!MemoryRetentionGuard::is_expired(&m, &rules, score, current_timestamp()));
}

#[test]
fn test_evidence_archive_threshold_triggers_expiry() {
    let rules = MemoryRetentionGuard::default_rules();
    let (m, score) = make_evidence_memory("被反驳的事实", 0, 10_000_000, false, 14);
    assert!(MemoryRetentionGuard::is_expired(&m, &rules, score, current_timestamp()));
}

#[test]
fn test_evidence_below_threshold_but_not_enough_days() {
    let rules = MemoryRetentionGuard::default_rules();
    let (m, score) = make_evidence_memory("被反驳的事实", 0, 10_000_000, false, 5);
    assert!(!MemoryRetentionGuard::is_expired(&m, &rules, score, current_timestamp()));
}

#[test]
fn test_positive_evidence_not_expired() {
    let rules = MemoryRetentionGuard::default_rules();
    let (m, score) = make_evidence_memory("被强化的事实", 5_000_000, 0, false, 0);
    assert!(!MemoryRetentionGuard::is_expired(&m, &rules, score, current_timestamp()));
}

#[test]
fn the_threshold_itself_archives() {
    let rules = MemoryRetentionGuard::default_rules();
    let (mut m, _) = make_evidence_memory("事实", 0, 0, false, ARCHIVE_DAYS);
    let now = m.timestamp;
    assert!(MemoryRetentionGuard::is_expired(&m, &rules, ARCHIVE_THRESHOLD, now));
    assert!(!MemoryRetentionGuard::is_expired(&m, &rules, ARCHIVE_THRESHOLD + 1, now));
    m.sub_zero_days = ARCHIVE_DAYS - 1;
    assert!(!MemoryRetentionGuard::is_expired(&m, &rules, ARCHIVE_THRESHOLD, now));
}

#[test]
fn the_type_comes_from_tags_first() {
    let mut m = MemoryItem::new("x".to_string(), Granularity::Turn, 0);
    assert_eq!(extract_memory_type(&m), "general");
    m.metadata.insert("memory_type", MetaValue::Text("insight".to_string()));
    assert_eq!(extract_memory_type(&m), "insight");
    m.tags.push("Knowledge".to_string());
    assert_eq!(extract_memory_type(&m), "knowledge");
}

#[test]
fn decay_spares_what_is_young_protected_or_important() {
    let mut m = MemoryItem::new("x".to_string(), Granularity::Turn, 0);
    m.timestamp = 0;
    assert!(!QuadraticDecay::should_purge(&m, DECAY_MILLIS / 2));
    assert!(QuadraticDecay::should_purge(&m, 2 * DECAY_MILLIS));
    m.importance = 800_000;
    assert!(!QuadraticDecay::should_purge(&m, 100 * DECAY_MILLIS));
    m.importance = 0;
    m.protected = true;
    assert!(!QuadraticDecay::should_purge(&m, 100 * DECAY_MILLIS));
}

#[test]
fn the_worse_of_two_equal_contents_goes() {
    let mut a = MemoryItem::new("同一内容".to_string(), Granularity::Turn, 300_000);
    a.id = "a".to_string();
    let mut b = MemoryItem::new("同一内容".to_string(), Granularity::Turn, 800_000);
    b.id = "b".to_string();
    let mut c = MemoryItem::new("别的".to_string(), Granularity::Turn, 100_000);
    c.id = "c".to_string();
    assert_eq!(plan_consolidation(&[a, b, c], &vec![0, 0, 0]), vec!["a"]);
}

#[test]
fn cleanup_limits_numbers_and_ages() {
    let guard = MemoryRetentionGuard::new();
    let now = 1_000 * HOUR_MILLIS;
    let mut list: Vec<MemoryItem> = Vec::new();
    for i in 0..3 {
        let mut m = MemoryItem::new(format!("闲聊 {i}"), Granularity::Turn, 100_000);
        m.id = format!("m{i}");
        m.tags.push("casual_conversation".to_string());
        m.timestamp = now - (10 + 10 * i as i64) * HOUR_MILLIS;
        list.push(m);
    }
    let scores = vec![0, 0, 0];
    assert_eq!(guard.plan_cleanup(&list, &scores, now, true), vec!["m2"]);
    assert!(guard.plan_cleanup(&list, &scores, now, false).is_empty());
    let mut many: Vec<MemoryItem> = Vec::new();
    for i in 0..103 {
        let mut m = list[0].clone();
        m.id = format!("c{i}");
        m.timestamp = now - 1_000 + i;
        m.protected = i == 0 || i == 2;
        many.push(m);
    }
    assert_eq!(guard.plan_cleanup(&many, &vec![0; 103], now, true), vec!["c1", "c3", "c4"]);
    for m in many.iter_mut() {
        m.protected = true;
    }
    assert!(guard.plan_cleanup(&many, &vec![0; 103], now, true).is_empty());
    let half = vec![MemoryExpirationRule::new("general", Some(500_000)).with_min_importance(1_000_000)];
    let mut m = MemoryItem::new("x".to_string(), Granularity::Turn, 900_000);
    m.timestamp = 0;
    assert!(MemoryRetentionGuard::is_expired(&m, &half, 0, HOUR_MILLIS / 2 + 1));
    assert!(!MemoryRetentionGuard::is_expired(&m, &half, 0, HOUR_MILLIS / 2));
}

#[test]
fn strength_falls_with_the_square_of_the_age() {
    let mut m = MemoryItem::new("x".to_string(), Granularity::Turn, 0);
    m.timestamp = 0;
    assert_eq!(QuadraticDecay::strength(&m, 0), 1_000_000);
    assert_eq!(QuadraticDecay::strength(&m, DECAY_MILLIS / 2), 750_000);
    assert_eq!(QuadraticDecay::strength(&m, DECAY_MILLIS), 0);
    m.importance = 1_000_000;
    assert_eq!(QuadraticDecay::strength(&m, DECAY_MILLIS), 750_000);
    assert_eq!(QuadraticDecay::decayed_importance(&m, DECAY_MILLIS), 750_000_000_000);
    m.importance = 9_000_000;
    assert_eq!(QuadraticDecay::strength(&m, DECAY_MILLIS), 990_000);
    m.importance = -3_000_000;
    assert_eq!(QuadraticDecay::strength(&m, DECAY_MILLIS), 750_000);
    m.importance = -1_000_000;
    assert_eq!(QuadraticDecay::strength(&m, 0), 1_000_000);
    assert_eq!(QuadraticDecay::strength(&m, 1), 0);
    m.importance = 9_223_372_036_000_000_000;
    assert_eq!(QuadraticDecay::strength(&m, i64::MAX), 999_999);
    m.importance = i64::MIN;
    assert_eq!(QuadraticDecay::strength(&m, DECAY_MILLIS), 999_999);
    assert!(!QuadraticDecay::should_purge(&m, DECAY_MILLIS));
}

#[test]
fn the_guard_clears_the_store() {
    let mut old = MemoryItem::new("闲聊".to_string(), Granularity::Turn, 100_000);
    old.id = "old".to_string();
    old.tags.push("casual_conversation".to_string());
    old.timestamp = 0;
    let mut a = MemoryItem::new("同".to_string(), Granularity::Turn, 300_000);
    a.id = "a".to_string();
    a.timestamp = 100 * HOUR_MILLIS;
    let mut b = a.clone();
    b.id = "b".to_string();
    b.importance = 900_000;
    let mut m = MemoryManager::new(
        "vivian",
        MemoryStoreData { version: 4, entries: vec![old, a, b] },
        RecycleBin::new(RecycleBinData { entries: Vec::new() }),
        Vec::new(),
        50,
    );
    let guard = MemoryRetentionGuard::new();
    let now = 100 * HOUR_MILLIS;
    assert_eq!(guard.cleanup_expired(&mut m, &vec![0, 0, 0], now, false), 0);
    assert_eq!(guard.cleanup_expired(&mut m, &vec![0, 0, 0], now, true), 1);
    assert_eq!(m.entry_count(), 2);
    assert_eq!(guard.consolidate(&mut m, &vec![0, 0]), 1);
    assert_eq!(m.entries[0].id, "b");
}
