use vivian_memory::relational_recall::{RelationType, RelationalHit};
use vivian_memory::strategy::{apply_temporal_decay, arm_limit, compute_match_score, create_strategy, first_items,
    inject_staleness, rank_vector_hits, search_hybrid, Ages, AutoStrategy, Found, GraphStrategy, HybridStrategy,
    KeywordStrategy, VectorHit, VectorStrategy};
use vivian_memory::types::{Granularity, MemoryItem, MetaValue, RetrievalStrategy};

fn make_items() -> Vec<MemoryItem> {
    vec![
        {
            let mut m = MemoryItem::new("用户喜欢喝咖啡".to_string(), Granularity::Summary, 900_000);
            m.tags = vec!["user".to_string(), "preference".to_string()];
            m
        },
        {
            let mut m = MemoryItem::new("今天天气不错".to_string(), Granularity::Turn, 300_000);
            m.tags = vec!["user".to_string()];
            m
        },
        {
            let mut m = MemoryItem::new("用户叫小明".to_string(), Granularity::Summary, 800_000);
            m.tags = vec!["user".to_string(), "identity".to_string()];
            m
        },
    ]
}

fn vector_hit(id: &str, similarity: i64) -> VectorHit {
    VectorHit { memory_id: id.to_string(), similarity }
}

fn ages(items: &[MemoryItem]) -> Ages {
    Ages { factors: vec![1_000_000; items.len()], hints: vec![None; items.len()], now: 0 }
}

fn nothing_found() -> Found {
    Found { fused: Vec::new(), vectors: 0, hits: Vec::new() }
}

#[test]
fn test_keyword_strategy_finds_match() {
    let items = make_items();
    let result = KeywordStrategy.search(&items, "咖啡", 5);
    assert!(result.iter().any(|m| m.content.contains("咖啡")));
}

#[test]
fn test_vector_strategy_returns_results() {
    let items = make_items();
    let hits = vec![vector_hit(&items[0].id, 900_000), vector_hit(&items[2].id, 400_000)];
    let result = VectorStrategy.search(&items, "用户喜好", &hits, &ages(&items), 3);
    assert!(!result.is_empty());
    let none: Vec<VectorHit> = Vec::new();
    assert!(!VectorStrategy.search(&items, "用户喜好", &none, &ages(&items), 3).is_empty());
}

#[test]
fn test_auto_strategy_falls_back_when_vector_empty() {
    let items = make_items();
    let result = AutoStrategy.search(&items, "咖啡", &nothing_found(), &ages(&items), 5);
    assert!(result.iter().any(|m| m.content.contains("咖啡")));
}

#[test]
fn test_factory_creates_correct_strategy() {
    assert_eq!(create_strategy(&RetrievalStrategy::Auto).name(), "auto");
    assert_eq!(create_strategy(&RetrievalStrategy::Keyword).name(), "keyword");
    assert_eq!(create_strategy(&RetrievalStrategy::Vector).name(), "vector");
    assert_eq!(create_strategy(&RetrievalStrategy::Hybrid).name(), "hybrid");
    assert_eq!(create_strategy(&RetrievalStrategy::Graph).name(), "graph");
}

#[test]
fn hits_are_ranked_by_their_scores() {
    let items = make_items();
    let hits = vec![
        vector_hit(&items[1].id, 100_000),
        vector_hit("unknown", 999_000),
        vector_hit(&items[2].id, 700_000),
    ];
    let out = rank_vector_hits(&items, &hits, "小明", 5);
    assert_eq!(out.len(), 2);
    assert_eq!(out[0].id, items[2].id);
    assert_eq!(out[0].metadata.micros("vector_similarity"), Some(700_000));
    assert_eq!(out[0].metadata.micros("match_score"), Some(1_080_000));
    // 1.08 / 2.08 = 0.519230, and (3 * 0.7 + 0.519230) / 4 = 0.654807
    assert_eq!(out[0].metadata.micros("combined_score"), Some(654_807));
}

#[test]
fn words_and_importance_make_the_fit() {
    let items = make_items();
    assert_eq!(compute_match_score(&items[0], "咖啡"), 10_900_000);
    assert_eq!(compute_match_score(&items[1], "咖啡"), 300_000);
    let best = search_hybrid(&items, "咖啡", 1);
    assert_eq!(best[0].id, items[0].id);
    assert_eq!(first_items(&items, 2).len(), 2);
}

#[test]
fn expired_knowledge_steps_back() {
    let knowledge = |id: &str, expires: Option<i64>| {
        let mut m = MemoryItem::new("x".to_string(), Granularity::Summary, 500_000);
        m.id = id.to_string();
        m.memory_type = "knowledge".to_string();
        m.metadata.insert("combined_score", MetaValue::Micros(1_000_000));
        if let Some(t) = expires {
            m.metadata.insert("expires_at", MetaValue::Micros(t));
        }
        m
    };
    let items = vec![knowledge("old", Some(1_000_000)), knowledge("new", None)];
    let out = apply_temporal_decay(&items, &vec![1_000_000, 1_000_000], 2_000_000);
    assert_eq!(out[0].id, "new");
    assert_eq!(out[1].id, "old");
    assert_eq!(out[1].metadata.micros("temporal_adjusted_score"), Some(300_000));
    assert!(out[1].metadata.flag("expired"));
}

#[test]
fn the_graph_gives_what_it_reached() {
    let items = make_items();
    let hits = vec![RelationalHit {
        memory_id: items[2].id.clone(),
        hop: 1,
        via_relation: RelationType::Knows,
        seed: "小明".to_string(),
        edge_weight: 1,
    }];
    let out = GraphStrategy.search(&items, "咖啡", Some(&hits), &ages(&items), 5);
    assert_eq!(out.len(), 1);
    assert_eq!(out[0].id, items[2].id);
    assert_eq!(GraphStrategy.search(&items, "咖啡", None, &ages(&items), 5)[0].id, items[0].id);
    let aged = inject_staleness(&items[..2], &vec![Some("3 天前".to_string()), None]);
    assert_eq!(aged[0].metadata.text("staleness"), Some("3 天前".to_string()));
    assert!(aged[1].metadata.get("staleness").is_none());
}

#[test]
fn arms_look_wider_than_what_is_wanted() {
    assert_eq!(arm_limit(3), 20);
    assert_eq!(arm_limit(10), 40);
}

#[test]
fn knowledge_ages_in_every_way_that_scores() {
    let mut items = make_items();
    for (i, m) in items.iter_mut().enumerate() {
        m.timestamp = i as i64;
    }
    items[0].memory_type = "knowledge".to_string();
    let faded = Ages { factors: vec![100_000, 1_000_000, 1_000_000], ..ages(&items) };
    let fresh = ages(&items);
    assert_eq!(HybridStrategy.search(&items, "咖啡", &fresh, 3)[0].id, items[0].id);
    let out = HybridStrategy.search(&items, "咖啡", &faded, 3);
    assert_eq!(out[0].id, items[0].id);
    assert_eq!(out[0].metadata.micros("temporal_adjusted_score"), Some(109_000));
    let hits = vec![vector_hit(&items[0].id, 900_000), vector_hit(&items[1].id, 800_000)];
    assert_eq!(VectorStrategy.search(&items, "x", &hits, &fresh, 3)[0].id, items[0].id);
    assert_eq!(VectorStrategy.search(&items, "x", &hits, &faded, 3)[0].id, items[1].id);
    let found = Found { fused: Vec::new(), vectors: 2, hits };
    assert_eq!(AutoStrategy.search(&items, "x", &found, &faded, 3)[0].id, items[1].id);
    let mut many: Vec<MemoryItem> = Vec::new();
    for i in 0..10 {
        let mut m = items[0].clone();
        m.id = format!("m{i}");
        m.timestamp = i;
        many.push(m);
    }
    let fused = vec![many[3].clone()];
    let found = Found { fused, vectors: 0, hits: Vec::new() };
    let mut old = ages(&many);
    old.hints[3] = Some("3 天前".to_string());
    let out = AutoStrategy.search(&many, "x", &found, &old, 3);
    assert_eq!(out.len(), 1);
    assert_eq!(out[0].metadata.text("staleness"), Some("3 天前".to_string()));
    assert_eq!(out[0].metadata.micros("recency_factor"), Some(1_000_000));
}
