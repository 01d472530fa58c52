use vivian_memory::redact::{compute_tracker_id, detect_pii, has_pii, is_pure_placeholder_content,
    redact_status_from_metadata, tracker_lookup, try_redact_content, try_redact_for_log, RedactStatus,
    TrackerStore};
use vivian_memory::types::{MetaValue, Metadata};

#[test]
fn personal_data_are_found_and_remembered() {
    let mut store = TrackerStore::new();
    let found = detect_pii(&mut store, "电话 13812345678，邮箱 a@b.com");
    let kinds: Vec<&str> = found.iter().map(|s| s.pii_type.as_str()).collect();
    assert_eq!(kinds, vec!["phone_cn", "email"]);
    assert_eq!(tracker_lookup(&store, &found[1].tracker_id), Some("a@b.com".to_string()));
    assert_eq!(found[1].tracker_id, compute_tracker_id("email", "a@b.com"));
    assert_eq!(tracker_lookup(&store, "x"), None);
    assert!(has_pii("a@b.com") && !has_pii("你好"));
}

#[test]
fn spans_are_in_order_and_apart() {
    let mut store = TrackerStore::new();
    let found = detect_pii(&mut store, "b@c.com 13812345678 a@b.com, x@y.org");
    let kinds: Vec<&str> = found.iter().map(|s| s.pii_type.as_str()).collect();
    assert_eq!(kinds, vec!["email", "phone_cn", "email", "email"]);
    for pair in found.windows(2) {
        assert!(pair[0].start <= pair[1].start && pair[0].end <= pair[1].start);
    }
}

#[test]
fn placeholders_take_their_place() {
    let mut store = TrackerStore::new();
    let (text, spans, status) = try_redact_content(&mut store, "发到 a@b.com 吧").unwrap();
    assert_eq!(text, "发到 [EMAIL] 吧");
    assert_eq!(status, RedactStatus::Redacted);
    assert!(spans[0].redacted);
    let (text, spans, status) = try_redact_content(&mut store, "你好").unwrap();
    assert_eq!((text.as_str(), spans.len(), status), ("你好", 0, RedactStatus::Clean));
    assert!(try_redact_content(&mut store, "110101199003071234").is_none());
}

#[test]
fn logs_are_short_and_clean() {
    let mut store = TrackerStore::new();
    assert_eq!(try_redact_for_log(&mut store, "abcdef", 3), Some("abc…".to_string()));
    assert_eq!(try_redact_for_log(&mut store, "a@b.com xyz", 3), Some("[EM…(redacted)".to_string()));
    assert_eq!(try_redact_for_log(&mut store, "abc", 3), Some("abc".to_string()));
}

#[test]
fn nothing_but_placeholders_is_told_apart() {
    assert!(is_pure_placeholder_content(" [EMAIL] [PHONE_CN] "));
    assert!(!is_pure_placeholder_content("我的 [EMAIL]"));
    assert!(!is_pure_placeholder_content("  "));
}

#[test]
fn the_status_is_read() {
    let mut meta = Metadata::new();
    assert_eq!(redact_status_from_metadata(&meta), RedactStatus::Clean);
    meta.insert("redact_status", MetaValue::Text("detected".to_string()));
    assert_eq!(redact_status_from_metadata(&meta), RedactStatus::Detected);
    meta.insert("redact_status", MetaValue::Text("redacted".to_string()));
    assert_eq!(redact_status_from_metadata(&meta), RedactStatus::Redacted);
}
