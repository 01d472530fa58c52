use vivian_memory::assoc::Assoc;
use vivian_memory::precision_filter::{apply_precision_filter, exclude_visible_context, is_relevant_to_entity,
    attention_bonus, rank_and_truncate, rank_and_truncate_with_attention, EntityScope, PrecisionFilterCriteria};
use vivian_memory::types::{Granularity, MemoryItem, MetaValue, Metadata};

fn make_item(id: &str, content: &str, importance: i64) -> MemoryItem {
    let mut m = MemoryItem::new(content.to_string(), Granularity::Turn, importance);
    m.id = id.to_string();
    m
}

#[test]
fn test_empty_criteria_returns_all() {
    let memories = vec![make_item("m1", "hello", 500_000), make_item("m2", "world", 300_000)];
    let criteria = PrecisionFilterCriteria::default();
    let result = apply_precision_filter(&memories, &criteria, 3);
    assert_eq!(result.len(), 2);
}

#[test]
fn test_keyword_filter() {
    let mut m1 = make_item("m1", "我喜欢咖啡", 800_000);
    let mut meta = Metadata::new();
    meta.insert("keywords", MetaValue::List(vec!["咖啡".to_string(), "偏好".to_string()]));
    m1.metadata = meta;
    let m2 = make_item("m2", "今天天气不错", 300_000);
    let memories = vec![m1, m2];

    let criteria = PrecisionFilterCriteria {
        keywords: vec!["咖啡".to_string()],
        ..Default::default()
    };
    let result = apply_precision_filter(&memories, &criteria, 1);
    assert_eq!(result.len(), 1);
    assert_eq!(result[0].id, "m1");
}

#[test]
fn test_relaxation_drops_importance() {
    let m1 = make_item("m1", "咖啡偏好", 800_000);
    let m2 = make_item("m2", "咖啡事件", 300_000);
    let memories = vec![m1, m2];

    let criteria = PrecisionFilterCriteria {
        keywords: vec!["咖啡".to_string()],
        importance_min: Some(800_000),
        ..Default::default()
    };
    let result = apply_precision_filter(&memories, &criteria, 2);
    assert_eq!(result.len(), 2);
}

#[test]
fn test_source_layer_filter() {
    let m1 = make_item("m1", "raw 对话", 500_000);
    let mut m2 = MemoryItem::new("semantic 摘要".to_string(), Granularity::Summary, 700_000);
    m2.id = "m2".to_string();
    let memories = vec![m1, m2];

    let criteria = PrecisionFilterCriteria {
        source_layers: vec!["raw".to_string()],
        ..Default::default()
    };
    let result = apply_precision_filter(&memories, &criteria, 1);
    assert_eq!(result.len(), 1);
    assert_eq!(result[0].id, "m1");
}

#[test]
fn test_exclude_visible_context() {
    let m1 = make_item("m1", "a", 500_000);
    let m2 = make_item("m2", "b", 500_000);
    let m3 = make_item("m3", "c", 500_000);
    let visible = vec!["m1".to_string()];
    let result = exclude_visible_context(vec![m1, m2, m3], &visible);
    assert_eq!(result.len(), 2);
    assert!(result.iter().all(|m| m.id != "m1"));
}

#[test]
fn the_last_stage_lets_everything_pass() {
    let memories = vec![make_item("m1", "甲", 500_000), make_item("m2", "乙", 300_000)];
    let criteria = PrecisionFilterCriteria {
        keywords: vec!["咖啡".to_string()],
        ..Default::default()
    };
    let result = apply_precision_filter(&memories, &criteria, 1);
    assert_eq!(result.len(), 2);
}

#[test]
fn strict_conditions_hold_where_they_suffice() {
    let memories = vec![make_item("m1", "咖啡", 900_000), make_item("m2", "咖啡", 100_000)];
    let criteria = PrecisionFilterCriteria {
        keywords: vec!["咖啡".to_string()],
        importance_min: Some(800_000),
        ..Default::default()
    };
    let result = apply_precision_filter(&memories, &criteria, 1);
    assert_eq!(result.len(), 1);
    assert_eq!(result[0].id, "m1");
}

#[test]
fn a_scope_names_whose_conversations_count() {
    let mut with_nana = make_item("m1", "甲", 500_000);
    with_nana.metadata.insert("speaker", MetaValue::Text("nana".to_string()));
    let mut other = make_item("m2", "乙", 500_000);
    other.metadata.insert("speaker", MetaValue::Text("user".to_string()));
    assert!(is_relevant_to_entity(&make_item("m3", "丙", 0), "nana"));
    assert!(is_relevant_to_entity(&with_nana, "nana"));
    assert!(!is_relevant_to_entity(&other, "nana"));
    let criteria = PrecisionFilterCriteria {
        entity_scope: Some(EntityScope::WithAgent("nana".to_string())),
        ..Default::default()
    };
    let result = apply_precision_filter(&[with_nana, other], &criteria, 1);
    assert_eq!(result.len(), 1);
    assert_eq!(result[0].id, "m1");
}

#[test]
fn the_weightiest_stay() {
    let three = || vec![make_item("a", "甲", 0), make_item("b", "乙", 0), make_item("c", "丙", 0)];
    let out = rank_and_truncate(three(), &vec![1, 3, 2], 2);
    let ids: Vec<&str> = out.iter().map(|m| m.id.as_str()).collect();
    assert_eq!(ids, vec!["b", "c"]);
    let all = rank_and_truncate(three(), &vec![1, 3, 2], 3);
    assert_eq!(all[0].id, "a");
    let mut heard = three();
    heard[0].tags = vec!["x".to_string(), "y".to_string(), "z".to_string()];
    let mut focus: Assoc<i64> = Assoc::new();
    focus.insert("x", 1_000_000);
    focus.insert("y", 200_000);
    assert_eq!(attention_bonus(&heard[0], &focus), 10_000_000);
    let ids = |ws: Vec<i64>| -> Vec<String> {
        rank_and_truncate_with_attention(heard.clone(), &ws, 1, Some(&focus)).into_iter().map(|m| m.id).collect()
    };
    assert_eq!(ids(vec![100, 109, 0]), vec!["a"]);
    assert_eq!(ids(vec![100, 111, 0]), vec!["b"]);
}
