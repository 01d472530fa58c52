use vivian_memory::recycle_bin::{RecycleBin, RecycleBinData, RecycleEntry, MAX_ENTRIES, RETENTION_MILLIS};
use vivian_memory::types::{current_timestamp, Granularity, MemoryItem};

fn make_item(id: &str, content: &str) -> MemoryItem {
    let mut m = MemoryItem::new(content.to_string(), Granularity::Turn, 500_000);
    m.id = id.to_string();
    m
}

fn empty_bin() -> RecycleBin {
    RecycleBin::new(RecycleBinData { entries: Vec::new() })
}

#[test]
fn push_and_restore_roundtrip() {
    let mut bin = empty_bin();
    let item = make_item("m1", "hello");
    bin.push(item.clone(), "test", current_timestamp());
    assert_eq!(bin.count(), 1);
    let restored = bin.restore("m1").expect("should restore");
    assert_eq!(restored.id, "m1");
    assert_eq!(bin.count(), 0);
}

#[test]
fn purge_expired_removes_old_entries() {
    let now = current_timestamp();
    let mut item = make_item("m_old", "old");
    item.timestamp = now - (RETENTION_MILLIS + 100_000);
    let entry = RecycleEntry {
        item,
        deleted_at: now - (RETENTION_MILLIS + 100_000),
        reason: "expired".to_string(),
        original_index_hint: None,
    };
    let mut bin = RecycleBin::new(RecycleBinData { entries: vec![entry] });
    let recent = make_item("m_new", "new");
    bin.push(recent, "fresh", now);
    let removed = bin.purge_expired(now);
    assert_eq!(removed, 1);
    assert_eq!(bin.count(), 1);
    assert!(bin.has("m_new"));
    assert!(!bin.has("m_old"));
}

#[test]
fn the_bin_keeps_the_latest() {
    let mut bin = empty_bin();
    for i in 0..MAX_ENTRIES + 1 {
        bin.push(make_item(&format!("m{i}"), "x"), "test", i as i64);
    }
    assert_eq!(bin.count(), MAX_ENTRIES);
    assert!(!bin.has("m0"));
    assert!(bin.has("m1"));
}

#[test]
fn loaded_entries_come_latest_first() {
    let old = RecycleEntry {
        item: make_item("a", "甲"),
        deleted_at: 1,
        reason: "r".to_string(),
        original_index_hint: None,
    };
    let new = RecycleEntry {
        item: make_item("b", "乙"),
        deleted_at: 2,
        reason: "r".to_string(),
        original_index_hint: None,
    };
    let bin = RecycleBin::new(RecycleBinData { entries: vec![old, new] });
    let ids: Vec<String> = bin.list().into_iter().map(|e| e.item.id).collect();
    assert_eq!(ids, vec!["b", "a"]);
    assert!(!bin.needs_save());
}

#[test]
fn purging_and_deduplicating() {
    let mut bin = empty_bin();
    bin.push(make_item("a", "甲"), "r", 1);
    bin.push(make_item("b", "甲"), "r", 2);
    bin.push(make_item("c", "丙"), "r", 3);
    assert!(bin.needs_save());
    bin.saved();
    assert!(!bin.needs_save());
    assert_eq!(bin.dedupe_by_content(), 1);
    assert!(bin.has("a") && !bin.has("b"));
    assert_eq!(bin.get("c").map(|e| e.deleted_at), Some(3));
    assert!(bin.purge("c"));
    assert!(!bin.purge("c"));
    assert!(bin.restore("c").is_none());
    assert_eq!(bin.purge_all(), 1);
    assert_eq!(bin.count(), 0);
}
