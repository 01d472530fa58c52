use vivian_memory::assoc::Assoc;
use vivian_memory::retriever::{attach_items, attach_items_with_weights, content_fingerprint, dedup_by_semantic, entity_arm_search,
    expand_context, hybrid_search, hybrid_search_with_words, known_vector_hits, post_graph_compensation, rank_arm, rerank, rrf_fuse, word_frequencies,
    HitFactors, MemoryRetrievalFilter, PostGraphScore, RetrievalHit, RetrievalResultType, RetrievalWeights};
use vivian_memory::relational_recall::{RelationType, RelationalHit};
use vivian_memory::types::{current_timestamp, Granularity, MemoryItem, MetaValue, Metadata};

fn make_item(id: &str, content: &str, importance: i64) -> MemoryItem {
    let mut m = MemoryItem::new(content.to_string(), Granularity::Turn, importance);
    m.id = id.to_string();
    m.timestamp = current_timestamp();
    m
}

fn hit(id: &str) -> RetrievalHit {
    RetrievalHit {
        item: make_item(id, "", 0),
        bm25_score: 1_000_000,
        vector_score: 0,
        graph_score: 0,
        fused_score: 500_000_000_000,
        result_type: RetrievalResultType::Memory,
    }
}

fn fresh(importance: i64) -> HitFactors {
    HitFactors { recency: 1_000_000, decayed_importance: importance }
}

#[test]
fn rrf_fuses_two_lists() {
    let bm25 = vec![("m1".to_string(), 1_500_000), ("m2".to_string(), 800_000)];
    let vec_ = vec![("m2".to_string(), 900_000), ("m3".to_string(), 600_000)];
    let graph = vec![];
    let entity = vec![];
    let fused = rrf_fuse(&bm25, &vec_, &graph, &entity);
    assert_eq!(fused.len(), 3);
    assert_eq!(fused[0].id, "m2");
}

#[test]
fn attach_items_fills_content() {
    let entries = vec![make_item("m1", "hello", 500_000)];
    let hits = vec![hit("m1")];
    let attached = attach_items(&hits, &entries, &vec![fresh(500_000)], "hello");
    assert_eq!(attached.len(), 1);
    assert_eq!(attached[0].item.content, "hello");
}

fn make_item_with_semantic(id: &str, content: &str, importance: i64, semantic: &str) -> MemoryItem {
    let mut item = make_item(id, content, importance);
    let mut meta = Metadata::new();
    meta.insert("semantic_type", MetaValue::Text(semantic.to_string()));
    item.metadata = meta;
    item
}

#[test]
fn semantic_boost_prioritizes_user_type_over_general() {
    let entries = vec![
        make_item_with_semantic("m_general", "苹果好吃", 500_000, "general"),
        make_item_with_semantic("m_user", "我喜欢苹果", 500_000, "user"),
    ];
    let hits = vec![hit("m_general"), hit("m_user")];
    let attached = attach_items(&hits, &entries, &vec![fresh(500_000), fresh(500_000)], "苹果");
    assert_eq!(attached[0].item.id, "m_user");
    assert_eq!(attached[1].item.id, "m_general");
}

#[test]
fn semantic_boost_written_to_metadata() {
    let entries = vec![make_item_with_semantic("m1", "hello", 500_000, "user")];
    let hits = vec![hit("m1")];
    let attached = attach_items(&hits, &entries, &vec![fresh(500_000)], "hello");
    assert_eq!(attached.len(), 1);
    let boost = attached[0].item.metadata.micros("semantic_boost").expect("semantic_boost");
    assert_eq!(boost, 1_150_000);
}

#[test]
fn fusing_keeps_every_memory_once() {
    let list = vec![("a".to_string(), 3), ("b".to_string(), 2)];
    let fused = rrf_fuse(&list, &list, &list, &list);
    let ids: Vec<&str> = fused.iter().map(|h| h.id.as_str()).collect();
    assert_eq!(ids, vec!["a", "b"]);
    assert!(fused[0].fused > fused[1].fused);
    let hits = rerank(&fused, &Vec::new(), "");
    assert_eq!(hits[0].item.id, "a");
    assert_eq!(hits[0].fused_score, fused[0].fused);
}

#[test]
fn a_memory_with_the_whole_query_gains_a_little() {
    let arm = vec![("a".to_string(), 3), ("b".to_string(), 2)];
    let none: Vec<(String, i64)> = Vec::new();
    let fused = rrf_fuse(&arm, &none, &none, &none);
    let entries = vec![make_item("a", "pie with an apple", 0), make_item("b", "My Apple PIE", 0)];
    let hits = rerank(&fused, &entries, "apple pie");
    let ids: Vec<&str> = hits.iter().map(|h| h.item.id.as_str()).collect();
    assert_eq!(ids, vec!["b", "a"]);
    assert_eq!(hits[0].fused_score, fused[1].fused + 1_000_000_000);
    assert_eq!(hits[1].fused_score, fused[0].fused);
    assert_eq!(rerank(&fused, &entries, "")[0].item.id, "a");
}

#[test]
fn gaps_are_those_of_the_memories_found() {
    let mut entries = vec![make_item("a", "1", 0), make_item("b", "2", 0), make_item("c", "3", 0)];
    entries[0].tags = vec!["t".to_string()];
    entries[1].tags = vec!["t".to_string()];
    let apple = vec!["apple".to_string()];
    let pear = vec!["pear".to_string()];
    let words = vec![apple.clone(), apple, pear];
    let query_words = vec!["apple".to_string(), "pear".to_string()];
    let none: Vec<(String, i64)> = Vec::new();
    let bm25 = vec![("a".to_string(), 5)];
    let out = hybrid_search_with_words(
        &entries, &words, &vec![0, 0, 0], "apple pear", &query_words, &Vec::new(), &bm25, &none, &none, 5, 10,
    );
    let ids: Vec<&str> = out.iter().map(|h| h.item.id.as_str()).collect();
    assert_eq!(ids, vec!["c", "a"]);
    assert_eq!(out[0].graph_score, 675_000);
    assert_eq!(out[0].fused_score, 487_500_000_000);
}

#[test]
fn arms_are_cut_and_ordered() {
    let ranked = rank_arm(
        vec![("a".to_string(), 1), ("b".to_string(), 3), ("c".to_string(), 2)],
        2,
    );
    assert_eq!(ranked, vec![("b".to_string(), 3), ("c".to_string(), 2)]);
    let entries = vec![make_item("a", "x", 0)];
    assert_eq!(
        known_vector_hits(&entries, vec![("a".to_string(), 5), ("z".to_string(), 4)]),
        vec![("a".to_string(), 5)]
    );
    let turned = vec![("a".to_string(), 4), ("z".to_string(), 9), ("b".to_string(), 5)];
    let both = vec![make_item("a", "", 0), make_item("b", "", 0)];
    assert_eq!(known_vector_hits(&both, turned), vec![("b".to_string(), 5), ("a".to_string(), 4)]);
}

#[test]
fn words_are_counted() {
    let words = vec!["苹果".to_string(), "香蕉".to_string(), "苹果".to_string()];
    let counted: Assoc<usize> = word_frequencies(&words);
    assert_eq!(counted.get("苹果"), Some(&2));
    assert_eq!(counted.get("香蕉"), Some(&1));
    assert_eq!(counted.get("梨"), None);
}

#[test]
fn a_changed_content_has_another_fingerprint() {
    let none: Vec<String> = Vec::new();
    let a = content_fingerprint("我喜欢吃苹果", &none, &None);
    assert_eq!(a, content_fingerprint("我喜欢吃苹果", &none, &None));
    assert_ne!(a, content_fingerprint("我喜欢吃香蕉", &none, &None));
    assert_ne!(a, content_fingerprint("我喜欢吃苹果", &vec!["t".to_string()], &None));
    assert_ne!(a, content_fingerprint("我喜欢吃苹果", &none, &Some("d".to_string())));
}

#[test]
fn names_are_found() {
    let entries = vec![make_item("m1", "AlenTinn 创造了我", 500_000), make_item("m2", "天气", 500_000)];
    let hits = entity_arm_search(&entries, &vec!["alentinn".to_string()], 5);
    assert_eq!(hits.len(), 1);
    assert_eq!(hits[0].0, "m1");
}

#[test]
fn a_filter_takes_all_its_conditions() {
    let mut m = make_item("m1", "x", 0);
    m.memory_type = "user".to_string();
    m.tags = vec!["a".to_string()];
    m.timestamp = 100;
    let mut filter = MemoryRetrievalFilter {
        memory_types: Some(vec!["user".to_string()]),
        tags_any: Some(vec!["b".to_string(), "a".to_string()]),
        time_after: Some(100),
        time_before: Some(101),
    };
    assert!(filter.matches(&m));
    filter.time_before = Some(100);
    assert!(!filter.matches(&m));
    filter.time_before = None;
    filter.memory_types = Some(Vec::new());
    filter.tags_any = Some(Vec::new());
    assert!(filter.matches(&m));
    filter.memory_types = Some(vec!["knowledge".to_string()]);
    assert!(!filter.matches(&m));
}

#[test]
fn expanding_only_adds() {
    let numbered = |id: &str, n: i64| {
        let mut m = make_item(id, id, 0);
        m.metadata.insert("seq_no", MetaValue::Int(n));
        m
    };
    let all = vec![numbered("a", 1), numbered("b", 2), numbered("c", 3)];
    let out = expand_context(vec![numbered("b", 2)], &all, 2);
    let ids: Vec<&str> = out.iter().map(|m| m.id.as_str()).collect();
    assert!(ids.contains(&"b"));
    assert_eq!(out.len(), 3);
    assert_eq!(expand_context(vec![numbered("b", 2)], &all, 0).len(), 1);
    let long: Vec<MemoryItem> = (1..10).map(|n| numbered(&format!("m{n}"), n)).collect();
    let hits = vec![numbered("m2", 2), numbered("m6", 6), numbered("m2", 2)];
    let ids = |max: usize| -> Vec<String> {
        expand_context(hits.clone(), &long, max).into_iter().map(|m| m.id).collect()
    };
    assert_eq!(ids(1), vec!["m2", "m6", "m3", "m7"]);
    assert_eq!(ids(2), vec!["m2", "m6", "m3", "m1", "m7", "m5"]);
}

#[test]
fn the_best_of_a_group_stays() {
    let items = vec![make_item("a", "甲", 0), make_item("b", "甲甲", 0), make_item("c", "丙", 0)];
    let similar = vec![
        vec![true, true, false],
        vec![true, true, false],
        vec![false, false, true],
    ];
    let out = dedup_by_semantic(items, &similar, &vec![1, 2, 0]);
    let ids: Vec<&str> = out.iter().map(|m| m.id.as_str()).collect();
    assert_eq!(ids, vec!["b", "c"]);
}

#[test]
fn gaps_are_filled_by_the_best() {
    let score = |total: i64| PostGraphScore {
        novelty: 0,
        complementarity: 0,
        specificity: 0,
        gap_fill: 0,
        total,
    };
    let chosen = post_graph_compensation(&vec![score(100_000), score(900_000), score(500_000)], 2, 200_000);
    assert_eq!(chosen, vec![1, 2]);
}

#[test]
fn long_chinese_names_are_found() {
    let entries = vec![make_item("m1", "张小明来过", 500_000), make_item("m2", "小明来过", 500_000)];
    let words = vec!["张小明".to_string(), "小明".to_string()];
    assert_eq!(entity_arm_search(&entries, &words, 5), vec![("m1".to_string(), 1)]);
}

#[test]
fn a_search_fuses_its_arms_and_fills_gaps() {
    let entries = vec![
        make_item("m1", "AlenTinn 创造了我", 500_000),
        make_item("m2", "今天天气很好", 500_000),
        make_item("m3", "明天一起看电影", 500_000),
    ];
    let detail = vec![0, 0, 1_000_000];
    let none: Vec<(String, i64)> = Vec::new();
    let reached = vec![RelationalHit {
        memory_id: "m2".to_string(),
        hop: 2,
        via_relation: RelationType::Knows,
        seed: "x".to_string(),
        edge_weight: 0,
    }];
    let out = hybrid_search(&entries, "AlenTinn 是谁", &detail, &none, &none, &reached, 20, 10);
    let found: Vec<&str> = out.iter().map(|h| h.item.id.as_str()).collect();
    assert!(found.contains(&"m1") && found.contains(&"m2"));
    let by_graph = out.iter().find(|h| h.item.id == "m2").unwrap();
    assert_eq!(by_graph.graph_score, 500_000);
    assert_eq!(hybrid_search(&entries, "AlenTinn 是谁", &detail, &none, &none, &reached, 20, 1).len(), 1);
    let empty: Vec<MemoryItem> = Vec::new();
    assert!(hybrid_search(&empty, "AlenTinn", &Vec::new(), &none, &none, &reached, 20, 10).is_empty());
}

#[test]
fn weights_fit_up_to_what_a_score_holds() {
    let mut w = RetrievalWeights::default();
    assert!(w.fit());
    w.relevance = 9_223_372_036_854;
    assert!(!w.fit());
    w.recency = 0;
    w.importance = 0;
    w.hook_boost = 0;
    w.need_sim = 0;
    assert!(w.fit());
    w.relevance = -9_223_372_036_854;
    assert!(w.fit());
    let entries = vec![make_item("m1", "苹果", 500_000)];
    w.relevance = 9_223_372_036_854;
    let out = attach_items_with_weights(&vec![hit("m1")], &entries, &vec![fresh(500_000)], w, "苹果");
    assert_eq!(out[0].fused_score, 9_223_372_036_854_000_000);
    w.relevance += 1;
    assert!(!w.fit());
}
