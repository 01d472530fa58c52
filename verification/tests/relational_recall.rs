use vivian_memory::relational_recall::{attach_graph_hits, build_relational_arm,
    infer_feeling_relation_types_from_query, infer_relation_types_from_query,
    infer_social_relation_types_from_query, is_valid_seed, parse_relational_query, EntityMention, FanoutResult,
    RelationDirection, RelationType, RelationalKind};
use vivian_memory::types::{Granularity, MemoryItem, MetaValue};

#[test]
fn test_parse_who_rel_invest() {
    let q = "谁投资了腾讯";
    let parsed = parse_relational_query(q);
    assert!(parsed.is_some());
    let p = parsed.unwrap();
    assert_eq!(p.kind, RelationalKind::WhoRel);
    assert!(p.relation_types.contains(&RelationType::InvestedIn));
}

#[test]
fn test_parse_who_rel_found() {
    let q = "谁创建了腾讯";
    let parsed = parse_relational_query(q);
    assert!(parsed.is_some());
    let p = parsed.unwrap();
    assert_eq!(p.kind, RelationalKind::WhoRel);
    assert!(p.relation_types.contains(&RelationType::Founded));
}

#[test]
fn test_parse_who_at() {
    let q = "谁在腾讯工作";
    let parsed = parse_relational_query(q);
    assert!(parsed.is_some());
    let p = parsed.unwrap();
    assert_eq!(p.kind, RelationalKind::WhoAt);
    assert!(p.relation_types.contains(&RelationType::WorksAt));
}

#[test]
fn test_parse_connects() {
    let q = "马化腾和李彦宏的关系";
    let parsed = parse_relational_query(q);
    assert!(parsed.is_some());
    let p = parsed.unwrap();
    assert_eq!(p.kind, RelationalKind::Connects);
    assert_eq!(p.seeds.len(), 2);
    assert_eq!(p.direction, RelationDirection::Both);
}

#[test]
fn test_parse_intro() {
    let q = "谁介绍我认识张三";
    let parsed = parse_relational_query(q);
    assert!(parsed.is_some());
    let p = parsed.unwrap();
    assert_eq!(p.kind, RelationalKind::Intro);
    assert!(p.relation_types.contains(&RelationType::Knows));
}

#[test]
fn test_parse_non_relational() {
    assert!(parse_relational_query("今天天气怎么样").is_none());
    assert!(parse_relational_query("").is_none());
    assert!(parse_relational_query("你好").is_none());
}

#[test]
fn test_stopword_filtered() {
    // "什么" 是停用词，应该被过滤
    let q = "谁投资了什么";
    let parsed = parse_relational_query(q);
    // "什么" 被过滤后 seed 无效，返回 None
    assert!(parsed.is_none());
}

#[test]
fn test_is_valid_seed() {
    assert!(is_valid_seed("腾讯"));
    assert!(is_valid_seed("马化腾"));
    assert!(!is_valid_seed("他"));
    assert!(!is_valid_seed("什么"));
    assert!(!is_valid_seed(""));
    assert!(!is_valid_seed("A")); // 单字
}

#[test]
fn test_infer_relation_types() {
    let types = infer_relation_types_from_query("谁投资了腾讯");
    assert!(types.contains(&RelationType::InvestedIn));

    let types = infer_relation_types_from_query("谁创建了腾讯");
    assert!(types.contains(&RelationType::Founded));

    let types = infer_relation_types_from_query("谁给腾讯当顾问");
    assert!(types.contains(&RelationType::Advises));

    // 无匹配关键词 → mentions
    let types = infer_relation_types_from_query("谁认识腾讯");
    assert!(types.contains(&RelationType::Mentions));
}

#[test]
fn test_parse_who_feels_likes() {
    let q = "谁喜欢音乐";
    let parsed = parse_relational_query(q);
    assert!(parsed.is_some());
    let p = parsed.unwrap();
    assert_eq!(p.kind, RelationalKind::WhoFeels);
    assert!(p.relation_types.contains(&RelationType::Likes));
}

#[test]
fn test_parse_who_feels_dislikes() {
    let q = "谁讨厌香菜";
    let parsed = parse_relational_query(q);
    assert!(parsed.is_some());
    let p = parsed.unwrap();
    assert_eq!(p.kind, RelationalKind::WhoFeels);
    assert!(p.relation_types.contains(&RelationType::Dislikes));
}

#[test]
fn test_parse_who_feels_trusts() {
    let q = "谁信任小明";
    let parsed = parse_relational_query(q);
    assert!(parsed.is_some());
    let p = parsed.unwrap();
    assert_eq!(p.kind, RelationalKind::WhoFeels);
    assert!(p.relation_types.contains(&RelationType::Trusts));
}

#[test]
fn test_parse_who_social_friend() {
    let q = "小明的朋友是谁";
    let parsed = parse_relational_query(q);
    assert!(parsed.is_some());
    let p = parsed.unwrap();
    assert_eq!(p.kind, RelationalKind::WhoSocial);
    assert!(p.relation_types.contains(&RelationType::FriendOf));
    assert_eq!(p.direction, RelationDirection::Out);
}

#[test]
fn test_parse_who_social_family() {
    let q = "小红的家人有哪些";
    let parsed = parse_relational_query(q);
    assert!(parsed.is_some());
    let p = parsed.unwrap();
    assert_eq!(p.kind, RelationalKind::WhoSocial);
    assert!(p.relation_types.contains(&RelationType::FamilyOf));
}

#[test]
fn test_infer_feeling_relation_types() {
    let types = infer_feeling_relation_types_from_query("谁喜欢小明");
    assert!(types.contains(&RelationType::Likes));

    let types = infer_feeling_relation_types_from_query("谁讨厌小明");
    assert!(types.contains(&RelationType::Dislikes));

    let types = infer_feeling_relation_types_from_query("谁想念小明");
    assert!(types.contains(&RelationType::Misses));

    let types = infer_feeling_relation_types_from_query("谁关心小明");
    assert!(types.contains(&RelationType::CaresFor));

    // 无匹配 → 默认 likes
    let types = infer_feeling_relation_types_from_query("谁对小明的态度");
    assert!(types.contains(&RelationType::Likes));
}

#[test]
fn test_infer_social_relation_types() {
    let types = infer_social_relation_types_from_query("小明的朋友是谁");
    assert!(types.contains(&RelationType::FriendOf));

    let types = infer_social_relation_types_from_query("小红的家人有哪些");
    assert!(types.contains(&RelationType::FamilyOf));

    let types = infer_social_relation_types_from_query("小红的哥哥是谁");
    assert!(types.contains(&RelationType::FamilyOf));

    // 无匹配 → 默认 friend_of
    let types = infer_social_relation_types_from_query("小明的关系网");
    assert!(types.contains(&RelationType::FriendOf));
}

fn reached(name: &str, hop: u32) -> FanoutResult {
    FanoutResult {
        entity_name: name.to_string(),
        hop,
        via_relation: RelationType::InvestedIn,
        edge_weight: 500_000,
    }
}

fn mention(name: &str, id: &str) -> EntityMention {
    EntityMention { entity_name: name.to_string(), memory_id: id.to_string() }
}

#[test]
fn each_memory_is_reached_once_by_the_shortest_way() {
    let parsed = parse_relational_query("谁投资了腾讯").unwrap();
    let first = vec![reached("甲", 2), reached("乙", 1)];
    let mentions = vec![mention("甲", "m1"), mention("乙", "m1"), mention("甲", "m2")];
    let hits = build_relational_arm(&parsed, &first, &Vec::new(), &mentions, 10);
    let found: Vec<(String, u64)> = hits.iter().map(|h| (h.memory_id.clone(), h.hop)).collect();
    assert_eq!(found, vec![("m1".to_string(), 1), ("m2".to_string(), 2)]);
    let one = build_relational_arm(&parsed, &first, &Vec::new(), &mentions, 1);
    assert_eq!(one.len(), 1);
}

#[test]
fn hits_carry_the_way_to_them() {
    let parsed = parse_relational_query("谁投资了腾讯").unwrap();
    let mentions = vec![mention("甲", "m1"), mention("甲", "unknown")];
    let hits = build_relational_arm(&parsed, &vec![reached("甲", 1)], &Vec::new(), &mentions, 10);
    let mut m = MemoryItem::new("甲投资了腾讯".to_string(), Granularity::Summary, 500_000);
    m.id = "m1".to_string();
    let out = attach_graph_hits(&[m], &hits);
    assert_eq!(out.len(), 1);
    assert!(matches!(out[0].metadata.get("graph_hop"), Some(MetaValue::Int(1))));
    assert!(matches!(out[0].metadata.get("graph_weight"), Some(MetaValue::Micros(500_000))));
    assert_eq!(out[0].metadata.text("graph_relation"), Some("invested_in".to_string()));
}
