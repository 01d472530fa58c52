use vivian_memory::json::top_keys;
use vivian_memory::refiner::{apply_selection, braced_part, find_by_id, finish_refinement, keyword_prefilter,
    parse_selected_ids, refine_prompt};
use vivian_memory::types::{Granularity, MemoryItem};

fn make_item(id: &str, content: &str, importance: i64) -> MemoryItem {
    let mut item = MemoryItem::new(content.to_string(), Granularity::Turn, importance);
    item.id = id.to_string();
    item.timestamp = 1_000_000;
    item
}

#[test]
fn prefilter_returns_all_when_below_k() {
    let items = vec![make_item("1", "a", 500_000), make_item("2", "b", 500_000)];
    let out = keyword_prefilter(&items, "query", 5);
    assert_eq!(out.len(), 2);
}

#[test]
fn prefilter_ranks_by_hits() {
    let items = vec![
        make_item("1", "今天天气真好", 500_000),
        make_item("2", "天气", 500_000),
        make_item("3", "无关内容", 500_000),
    ];
    let out = keyword_prefilter(&items, "天气", 2);
    assert_eq!(out.len(), 2);
    assert!(out[0].content.contains("天气"));
}

#[test]
fn parse_selected_ids_handles_json() {
    let text = r#"{"selected": ["id1", "id2"]}"#;
    let ids = parse_selected_ids(text);
    assert_eq!(ids, vec!["id1", "id2"]);
}

#[test]
fn parse_selected_ids_handles_wrapped_json() {
    let text = "结果：{\"selected\": [\"a\"]} 完成";
    let ids = parse_selected_ids(text);
    assert_eq!(ids, vec!["a"]);
}

#[test]
fn parse_selected_ids_returns_empty_on_invalid() {
    let ids = parse_selected_ids("invalid");
    assert!(ids.is_empty());
}

#[test]
fn braces_are_found_in_order_only() {
    assert_eq!(braced_part("x {a} y"), Some("{a}".to_string()));
    assert_eq!(braced_part("} {"), None);
    assert_eq!(braced_part("none"), None);
}

#[test]
fn a_selection_keeps_the_order_of_the_candidates() {
    let items = vec![
        make_item("1", "甲", 500_000),
        make_item("2", "乙", 500_000),
        make_item("3", "丙", 500_000),
    ];
    let out = apply_selection(&items, &vec!["3".to_string(), "1".to_string(), "2".to_string()], 2);
    let ids: Vec<&str> = out.iter().map(|m| m.id.as_str()).collect();
    assert_eq!(ids, vec!["1", "3"]);
    let out = apply_selection(&items, &vec!["x".to_string()], 2);
    let ids: Vec<&str> = out.iter().map(|m| m.id.as_str()).collect();
    assert_eq!(ids, vec!["1", "2"]);
    assert_eq!(find_by_id(&items, "2"), Some(1));
    assert_eq!(find_by_id(&items, "9"), None);
    let fallback = finish_refinement(&items, None, 2);
    let ids: Vec<&str> = fallback.iter().map(|m| m.id.as_str()).collect();
    assert_eq!(ids, vec!["1", "2"]);
}

#[test]
fn the_question_lists_the_candidates() {
    let items = vec![make_item("a", "甲", 0), make_item("b", "乙", 0)];
    let q = refine_prompt("vivian", "茶", &items, &vec!["甲".to_string(), "乙".to_string()], 1);
    assert_eq!(
        q,
        "角色：vivian\n用户查询：茶\n候选记忆：\n[0] id=a | 甲\n[1] id=b | 乙\n\n请挑选与查询最相关的 1 条，输出 JSON：{\"selected\": [\"id1\", \"id2\"]}"
    );
}

#[test]
fn a_choice_may_be_a_list() {
    assert_eq!(parse_selected_ids(r#"[["a", "b"]]"#), vec!["a", "b"]);
    assert!(parse_selected_ids(r#"[["a"], 1]"#).is_empty());
    assert!(parse_selected_ids(r#"["a", "b"]"#).is_empty());
}

#[test]
fn a_field_may_be_held_only_once() {
    assert!(parse_selected_ids(r#"{"selected": ["a"], "selected": ["b"]}"#).is_empty());
    assert!(parse_selected_ids(r#"so {"selected": ["a"], "sel\u0065cted": ["b"]} then"#).is_empty());
    assert_eq!(parse_selected_ids(r#"{"selected": ["selected"], "x": {"selected": 1}, "y": "selected"}"#), vec![
        "selected"
    ]);
    assert_eq!(parse_selected_ids(r#"{"x": 1e999, "selected": ["a"], "x": [{"y": null}]}"#), vec!["a"]);
    assert!(parse_selected_ids(r#"{"selected": 1e999}"#).is_empty());
    assert!(parse_selected_ids(r#"{"selected": ["a"], "x": }"#).is_empty());
    assert!(parse_selected_ids(r#"{"other": ["a"]}"#).is_empty());
}

#[test]
fn keys_are_those_of_the_outermost_object() {
    let keys = top_keys(r#" {"a\"b": ["c", "d"], "e": {"f": 1}, "g":"h,\\"} "#);
    assert_eq!(keys, vec![r#""a\"b""#, r#""e""#, r#""g""#]);
    assert!(top_keys(r#"["a", {"b": 1}]"#).is_empty());
    assert!(top_keys("").is_empty());
}
