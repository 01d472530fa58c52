use vivian_memory::assoc::Assoc;
use vivian_memory::manager::MemoryManager;
use vivian_memory::precision_filter::PrecisionFilterCriteria;
use vivian_memory::recycle_bin::{RecycleBin, RecycleBinData};
use vivian_memory::reindex::{embedded_only, has_drifted, seeds_still_missing};
use vivian_memory::retriever::MemoryRetrievalFilter;
use vivian_memory::search::{apply_episode_boost, apply_observer_penalty, apply_rerank, cache_key,
    candidate_limit, keep_verified, rerank_head, SearchCache, SEARCH_CACHE_MAX, SEARCH_CACHE_MILLIS};
use vivian_memory::strategy::{Ages, Found, Outside};
use vivian_memory::types::{Granularity, MemoryItem, MemoryStoreData, MetaValue, RetrievalStrategy};

fn item(id: &str, content: &str) -> MemoryItem {
    let mut m = MemoryItem::new(content.to_string(), Granularity::Summary, 500_000);
    m.id = id.to_string();
    m
}

fn scored(id: &str, score: i64, observer: bool) -> MemoryItem {
    let mut m = item(id, id);
    m.metadata.insert("fused_score", MetaValue::Micros(score));
    if observer {
        m.metadata.insert("perspective", MetaValue::Text("observer".to_string()));
    }
    m
}

fn ids(items: &[MemoryItem]) -> Vec<&str> {
    items.iter().map(|m| m.id.as_str()).collect()
}

fn manager_with(items: Vec<MemoryItem>) -> MemoryManager {
    MemoryManager::new(
        "vivian",
        MemoryStoreData { version: 4, entries: items },
        RecycleBin::new(RecycleBinData { entries: Vec::new() }),
        Vec::new(),
        50,
    )
}

fn outside(n: usize) -> Outside {
    Outside {
        found: Found { fused: Vec::new(), vectors: 0, hits: Vec::new() },
        reached: None,
        ages: Ages { factors: vec![1_000_000; n], hints: vec![None; n], now: 0 },
    }
}

#[test]
fn observers_count_half() {
    let list = vec![scored("a", 900_000, true), scored("b", 500_000, false), scored("c", 400_000, false)];
    assert_eq!(ids(&apply_observer_penalty(&list)), vec!["b", "a", "c"]);
    let mut watched = item("w", "w");
    watched.metadata.insert("perspective", MetaValue::Text("observer".to_string()));
    let plain = vec![watched, item("x", "x"), item("y", "y")];
    assert_eq!(ids(&apply_observer_penalty(&plain)), vec!["x", "y", "w"]);
}

#[test]
fn an_episode_stays_together() {
    let mut list = vec![
        scored("a", 900_000, false),
        scored("b", 800_000, false),
        scored("c", 700_000, false),
        scored("d", 600_000, false),
        scored("e", 550_000, false),
    ];
    list[0].episode_id = Some("e1".to_string());
    list[4].episode_id = Some("e1".to_string());
    assert_eq!(ids(&apply_episode_boost(&list)), vec!["a", "b", "c", "e", "d"]);
    list[0].episode_id = None;
    list[1].episode_id = Some("e1".to_string());
    list[1].metadata.insert("fused_score", MetaValue::Micros(880_000));
    assert_eq!(ids(&apply_episode_boost(&list)), vec!["a", "b", "c", "e", "d"]);
    list[1].episode_id = None;
    assert_eq!(ids(&apply_episode_boost(&list)), vec!["a", "b", "c", "d", "e"]);
}

#[test]
fn results_are_kept_for_a_moment() {
    let mut cache = SearchCache::new();
    let m = manager_with(vec![item("a", "甲"), item("b", "甲 ")]);
    assert_eq!(cache_key(" 甲 ", RetrievalStrategy::Auto, 5, "bge", 1024), "甲|Auto|5|bge|1024");
    let auto = RetrievalStrategy::Auto;
    let first = m.search_memories(&mut cache, " 甲 ", auto, 5, "bge", 1024, &outside(2), 0);
    assert_eq!(ids(&first), vec!["a"]);
    let n = manager_with(vec![item("c", "丙")]);
    let other = vec![item("c", "丙")];
    let again = n.search_memories(&mut cache, "甲", auto, 5, "bge", 1024, &outside(1), SEARCH_CACHE_MILLIS - 1);
    assert_eq!(ids(&again), vec!["a"]);
    let fresh = n.search_memories(&mut cache, "甲", auto, 5, "bge", 1024, &outside(1), SEARCH_CACHE_MILLIS);
    assert_eq!(ids(&fresh), vec!["c"]);
    for i in 0..SEARCH_CACHE_MAX + 4 {
        cache.put(&format!("k{i}"), &other, 10_000 + i as i64);
    }
    assert_eq!(cache.entries.len(), SEARCH_CACHE_MAX);
    assert!(cache.get("k3", 10_000).is_none());
    assert!(cache.get("k19", 10_019).is_some());
    let empty = manager_with(Vec::new());
    assert!(empty.search_memories(&mut cache, "new", auto, 5, "bge", 1024, &outside(0), 99_999).is_empty());
}

#[test]
fn a_filter_limits_the_search() {
    let mut a = item("a", "甲");
    a.memory_type = "user".to_string();
    let m = manager_with(vec![a, item("b", "乙")]);
    let filter = MemoryRetrievalFilter {
        memory_types: Some(vec!["user".to_string()]),
        tags_any: None,
        time_after: None,
        time_before: None,
    };
    assert_eq!(ids(&m.filtered_entries(&filter)), vec!["a"]);
    let keyword = RetrievalStrategy::Keyword;
    assert_eq!(ids(&m.search_memories_filtered("乙", keyword, 5, &filter, &outside(1))), vec!["a"]);
    let nothing = MemoryRetrievalFilter {
        memory_types: Some(vec!["x".to_string()]),
        tags_any: None,
        time_after: None,
        time_before: None,
    };
    assert!(m.search_memories_filtered("乙", keyword, 5, &nothing, &outside(0)).is_empty());
}

#[test]
fn candidates_pass_all_steps() {
    let mut gone = item("g", "咖啡渣");
    gone.consolidated = true;
    let m = manager_with(vec![
        item("a", "昨天喝咖啡"),
        item("b", "咖啡"),
        item("c", "天气"),
        gone,
        item("d", "咖啡豆"),
        item("e", "咖啡杯"),
    ]);
    let criteria = PrecisionFilterCriteria {
        keywords: vec!["咖啡".to_string()],
        ..Default::default()
    };
    let out =
        m.search_memories_with_options("咖啡", &criteria, &vec!["b".to_string()], 0, true, &outside(5), 4);
    assert_eq!(ids(&out), vec!["a", "d", "e"]);
    assert!(out[0].content.contains("以记忆产生时为准"));
    assert_eq!(candidate_limit(2), 10);
    assert_eq!(candidate_limit(5), 15);
    assert_eq!(ids(&keep_verified(out, Some(vec![2, 7, 0]))), vec!["e", "a"]);
}

#[test]
fn a_reranker_orders_the_head() {
    let list = vec![item("a", "甲"), item("b", "乙"), item("c", "丙")];
    assert_eq!(rerank_head(3, 0), 1);
    assert_eq!(rerank_head(3, 2), 2);
    let out = apply_rerank(&list, 2, &vec![100_000, 900_000], "ollama");
    assert_eq!(ids(&out), vec!["b", "a", "c"]);
    assert_eq!(out[0].metadata.micros("rerank_score"), Some(900_000));
    assert_eq!(out[0].metadata.text("reranker"), Some("ollama".to_string()));
    assert!(out[2].metadata.get("rerank_score").is_none());
}

#[test]
fn what_is_given_was_visited() {
    let mut m = manager_with(vec![item("a", "甲"), item("b", "乙")]);
    let ranked = vec![item("b", "乙"), item("a", "甲")];
    let out = m.finish_search(&ranked, 1, &vec![5], 9);
    assert_eq!(ids(&out), vec!["b"]);
    assert_eq!(m.entries[0].visit_count, 0);
    assert_eq!(m.entries[1].visit_count, 1);
}

#[test]
fn the_index_is_brought_in_step() {
    let mut list = vec![item("a", "甲"), item("b", "  "), item("c", "丙"), item("seed_d", "丁")];
    list[2].memory_type = "short_term".to_string();
    let m = manager_with(list);
    let admitted = vec![true, true, false, true];
    assert_eq!(m.count_indexable(&admitted), 2);
    assert_eq!(ids(&m.rebuild_all_embeddings(&admitted, &vec!["a".to_string()])), vec!["seed_d"]);
    assert_eq!(
        m.orphan_vectors(&admitted, &vec!["a".to_string(), "c".to_string(), "x".to_string()]),
        vec!["c", "x"]
    );
    assert_eq!(ids(&m.ensure_seed_vectors(&vec!["a".to_string()])), vec!["seed_d"]);
    assert!(m.ensure_seed_vectors(&vec!["seed_d".to_string()]).is_empty());
    assert!(m.check_index_drift_and_rebuild(&admitted, 1));
    assert!(!m.check_index_drift_and_rebuild(&admitted, 2));
    assert!(has_drifted(10, 7) && !has_drifted(10, 8));
    assert!(!has_drifted(10, 12) && has_drifted(10, 13));
    assert!(!has_drifted(0, 5));
    assert_eq!(seeds_still_missing(&vec![true, false, true], true), 1);
    assert_eq!(seeds_still_missing(&vec![true, false], false), 2);
    let batch = vec![item("a", "甲"), item("b", "乙")];
    assert_eq!(ids(&embedded_only(&batch, &vec![false, true])), vec!["b"]);
}

#[test]
fn only_changes_are_saved() {
    let m = manager_with(vec![item("a", "甲"), item("b", "乙")]);
    let mut persisted: Assoc<u64> = Assoc::new();
    persisted.insert("a", 1);
    persisted.insert("gone", 3);
    let plan = m.save_to_disk(&vec![1, 2], &persisted);
    assert_eq!(ids(&plan.upserts), vec!["b"]);
    assert_eq!(plan.deletes, vec!["gone"]);
    persisted = Assoc::new();
    persisted.insert("a", 1);
    persisted.insert("b", 2);
    let plan = m.save_to_disk(&vec![1, 2], &persisted);
    assert!(plan.upserts.is_empty() && plan.deletes.is_empty());
}
