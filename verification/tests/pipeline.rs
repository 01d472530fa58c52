use vivian_memory::bm25::{bm25_counts, tokenize_entry};
use vivian_memory::consolidation::{can_extract_json, extract_json_from_response, extract_keywords,
    find_merge_target, find_merge_target_by_keywords, get_recent_session_summaries, is_content_redundant,
    source_fingerprint, union_strings};
use vivian_memory::manager::MemoryManager;
use vivian_memory::pipeline::{acquire_behaviors, default_topic, keep_state, plan_episode, topic_of,
    AcquiredBehaviorItem, ConsolidationReport, FactItem, InsightItem, L1RecentStateUpdate, SummaryItem};
use vivian_memory::prompts::{stage2_extract_dynamic_persona, stage2_extract_profile, stage3_concept_prompt,
    write_insight_line, KnownConcept};
use vivian_memory::recycle_bin::{RecycleBin, RecycleBinData};
use vivian_memory::redact::{detect_pii, tracker_lookup, TrackerStore};
use vivian_memory::stages::{complete_interrupted_stage1, find_reinforce_target, progress_context_key,
    progress_key_on, reassess_evidence_for_new_fact, stage3_concept, ConceptItem, ConsolidationPipeline, Gate,
    Stage1Trigger};
use vivian_memory::store::is_summarized;
use vivian_memory::types::{Granularity, MemoryItem, MemoryStoreData, MetaValue};

fn item(id: &str, content: &str, tag: &str) -> MemoryItem {
    let mut m = MemoryItem::new(content.to_string(), Granularity::Summary, 500_000);
    m.id = id.to_string();
    m.timestamp = 0;
    m.tags = vec![tag.to_string()];
    m
}

fn manager_with(items: Vec<MemoryItem>) -> MemoryManager {
    MemoryManager::new(
        "vivian",
        MemoryStoreData { version: 4, entries: items },
        RecycleBin::new(RecycleBinData { entries: Vec::new() }),
        Vec::new(),
        50,
    )
}

fn summary(text: &str) -> SummaryItem {
    SummaryItem {
        summary: text.to_string(),
        importance: 600_000,
        mood_tags: vec!["warm".to_string()],
        date_labels: vec!["2026-01-02".to_string()],
        time_of_days: Vec::new(),
    }
}

#[test]
fn json_is_taken_out_of_an_answer() {
    assert_eq!(extract_json_from_response("x ```json\n[1]\n``` y"), "[1]");
    assert_eq!(extract_json_from_response("```\n{}\n```"), "{}");
    assert_eq!(extract_json_from_response("so: [1, [2]] end"), "[1, [2]]");
    assert_eq!(extract_json_from_response("  plain "), "plain");
    assert!(can_extract_json("[]"));
    assert!(!can_extract_json("] ["));
}

#[test]
fn lists_are_joined_once() {
    let a = vec!["x".to_string(), "y".to_string()];
    let b = vec!["y".to_string(), "z".to_string(), "z".to_string()];
    assert_eq!(union_strings(&a, &b), vec!["x", "y", "z"]);
    let twice = vec!["x".to_string(), "x".to_string()];
    let more = vec!["y".to_string(), "x".to_string()];
    assert_eq!(union_strings(&twice, &more), vec!["x", "y"]);
    assert_eq!(union_strings(&twice, &Vec::new()), vec!["x"]);
}

#[test]
fn keywords_are_words_and_characters() {
    let k = extract_keywords("Rust 语言, a");
    assert_eq!(k, vec!["rust", "语言", "语", "言"]);
    assert!(extract_keywords("a . !").is_empty());
}

#[test]
fn repeated_sentences_are_redundant() {
    let there = "主人喜欢在晚上看书。主人不吃香菜的哦。";
    assert!(is_content_redundant(there, "主人喜欢在晚上看书"));
    assert!(!is_content_redundant(there, "主人喜欢在晚上看书。今天又说了一件新事情"));
    assert!(is_content_redundant("我们约好了", "约好"));
    assert!(!is_content_redundant("别的", "约好"));
}

#[test]
fn a_summary_continues_the_most_alike() {
    assert_eq!(find_merge_target(&vec![Some(600_000), None, Some(700_000), Some(650_000)]), Some(2));
    assert_eq!(find_merge_target(&vec![Some(600_000), None]), None);
    let recent = vec![item("a", "天气很好", "session_summary"), item("b", "咖啡好喝", "session_summary")];
    assert_eq!(find_merge_target_by_keywords("咖啡好喝", &recent), Some(1));
    assert_eq!(find_merge_target_by_keywords("完全不同", &recent), None);
    assert_eq!(find_merge_target_by_keywords("!", &recent), None);
}

#[test]
fn recent_summaries_are_five_at_most() {
    let mut list: Vec<MemoryItem> = Vec::new();
    for i in 0..7 {
        let mut m = item(&format!("s{i}"), "x", "session_summary");
        m.timestamp = i;
        list.push(m);
    }
    list.push(item("other", "x", "short_term"));
    let out = get_recent_session_summaries(&list);
    assert_eq!(out.len(), 5);
    assert_eq!(out[0].id, "s6");
}

#[test]
fn fingerprints_ignore_order() {
    let a = source_fingerprint(&vec!["x".to_string(), "y".to_string()]);
    assert_eq!(a, source_fingerprint(&vec!["y".to_string(), "x".to_string()]));
    assert_ne!(a, source_fingerprint(&vec!["x".to_string()]));
    assert_eq!(a.len(), 16);
}

#[test]
fn failures_wait_and_successes_stay() {
    let mut p = ConsolidationPipeline::new(10, 600_000);
    assert_eq!(p.check_reflection_gate("k", 0), Gate::Open);
    p.record_reflection_failure("k", 0);
    assert_eq!(p.check_reflection_gate("k", 119_999), Gate::Backoff);
    assert_eq!(p.check_reflection_gate("k", 120_000), Gate::Open);
    p.record_reflection_failure("k", 0);
    assert_eq!(p.check_reflection_gate("k", 239_999), Gate::Backoff);
    for _ in 0..5 {
        p.record_reflection_failure("k", 0);
    }
    assert_eq!(p.check_reflection_gate("k", 479_999), Gate::Backoff);
    assert_eq!(p.check_reflection_gate("k", 480_000), Gate::Open);
    p.record_reflection_success("k");
    assert_eq!(p.check_reflection_gate("k", 0), Gate::AlreadyDone);
    assert!(p.reflection_backoff.is_empty());
    for i in 0..200 {
        p.record_reflection_success(&format!("k{i}"));
    }
    assert_eq!(p.reflection_done.len(), 100);
    assert_eq!(p.check_reflection_gate("k199", 0), Gate::AlreadyDone);
}

#[test]
fn short_memories_are_summed_up() {
    let mut watched = item("w", "旁观", "short_term");
    watched.metadata.insert("perspective", MetaValue::Text("observer".to_string()));
    let mut thought = item("t", "心想", "short_term");
    thought.tags.push("inner_monologue".to_string());
    let mut m = manager_with(vec![item("a", "你好", "short_term"), item("b", "再见", "short_term"), watched, thought]);
    m.entries[0].metadata.insert("mood_tags", MetaValue::List(vec!["warm".to_string()]));
    let mut p = ConsolidationPipeline::new(2, 600_000);
    p.set_locked_core("我是 Vivian".to_string());
    let batch = p.stage1_begin(&m, 1_000).unwrap();
    assert_eq!(batch.trigger, Stage1Trigger::Count);
    assert_eq!(batch.source_ids, vec!["a", "b"]);
    assert!(batch.prompt.starts_with("\n[角色身份]\n"));
    assert!(batch.prompt.ends_with("短期记忆：\n[a] [情绪余温: warm] 你好\n[b] 再见"));
    let mut trackers = TrackerStore::new();
    let list = vec![summary("打了招呼然后道别")];
    let out = p
        .stage1_summarize(&mut m, &mut trackers, &batch, &list, &vec![None], 0, 1_000)
        .unwrap();
    assert_eq!((out.created, out.merged, out.failed), (1, 0, false));
    let new = m.entries.last().unwrap();
    assert_eq!(new.metadata.list("promoted_from"), vec!["a", "b"]);
    assert_eq!(new.metadata.text("date_label"), Some("2026-01-02".to_string()));
    assert_eq!(new.metadata.text("consolidation_stage"), Some("stage1".to_string()));
    assert_eq!(new.metadata.text("knowledge_source"), Some("extracted".to_string()));
    let plan = plan_episode(&batch.short_term, &list, &out.new_ids).unwrap();
    assert_eq!(plan.memory_ids.len(), 3);
    assert_eq!(plan.topic.as_deref(), Some("打了招呼然后道别"));
    assert_eq!(plan.curve, vec![(0, "warm".to_string())]);
    p.stage1_finish(&mut m, &batch, &out.new_ids, Some("e1".to_string()), 5_000);
    assert!(is_summarized(&m.entries[0]) && is_summarized(&m.entries[1]));
    assert!(!m.entries[2].consolidated);
    assert_eq!(m.entries[0].episode_id.as_deref(), Some("e1"));
    assert!(p.stage1_begin(&m, 6_000).is_none());
    let none: Vec<SummaryItem> = Vec::new();
    assert!(p.stage1_summarize(&mut m, &mut trackers, &batch, &none, &Vec::new(), 0, 0).is_none());
}

#[test]
fn summaries_wait_for_enough_or_for_silence() {
    let m = manager_with(vec![item("a", "你好", "short_term")]);
    let mut p = ConsolidationPipeline::new(2, 600_000);
    assert!(p.stage1_begin(&m, 599_999).is_none());
    assert_eq!(p.stage1_begin(&m, 600_000).unwrap().trigger, Stage1Trigger::Idle);
    p.last_stage1_at = 500;
    assert!(p.stage1_begin(&m, 619_999).is_none());
    assert!(p.stage1_begin(&m, 620_000).is_some());
}

#[test]
fn a_summary_grows() {
    let mut target = item("s", "第一段摘要内容", "session_summary");
    target.importance = 900_000;
    target.metadata.insert("promoted_from", MetaValue::List(vec!["x".to_string()]));
    target.metadata.insert("date_labels", MetaValue::List(vec!["2026-01-01".to_string(), "2026-01-01".to_string()]));
    target.metadata.insert("mood_tags", MetaValue::List(vec!["calm".to_string(), "calm".to_string()]));
    target.metadata.insert("time_of_days", MetaValue::List(vec!["night".to_string(), "night".to_string()]));
    let mut m = manager_with(vec![target, item("a", "你好", "short_term")]);
    let p = ConsolidationPipeline::new(1, 600_000);
    let batch = p.stage1_begin(&m, 0).unwrap();
    let mut trackers = TrackerStore::new();
    let list = vec![summary("第二段摘要内容"), summary("第三段摘要内容")];
    let targets = vec![Some("s".to_string()), Some("s".to_string())];
    let out = p.stage1_summarize(&mut m, &mut trackers, &batch, &list, &targets, 0, 0).unwrap();
    assert_eq!((out.created, out.merged), (1, 1));
    assert!(is_summarized(&m.entries[0]));
    let merged = &m.entries[2];
    assert_eq!(merged.content, "第一段摘要内容\n第二段摘要内容");
    assert_eq!(merged.importance, 900_000);
    assert_eq!(merged.metadata.list("promoted_from"), vec!["x", "a"]);
    assert_eq!(merged.metadata.list("date_labels"), vec!["2026-01-01", "2026-01-02"]);
    assert_eq!(merged.metadata.text("date_label"), Some("2026-01-01".to_string()));
    assert_eq!(merged.metadata.list("mood_tags"), vec!["calm", "warm"]);
    assert_eq!(merged.metadata.list("time_of_days"), vec!["night"]);
    assert_eq!(merged.metadata.text("merged_from"), Some("s".to_string()));
    assert_eq!(m.entries[3].content, "第三段摘要内容");
}

#[test]
fn warm_summaries_become_facts() {
    let mut m = manager_with(vec![item("s", "摘要", "session_summary"), item("t", "冷", "session_summary")]);
    m.entries[1].visit_count = 1;
    let mut p = ConsolidationPipeline::new(10, 600_000);
    assert!(p.stage2_begin(&m, &vec![2_499_999, 0], 0).is_none());
    let batch = p.stage2_begin(&m, &vec![2_500_000, 0], 0).unwrap();
    assert_eq!(batch.source_ids, vec!["s"]);
    assert_eq!(batch.text, "[s] 摘要");
    assert_eq!(p.stage2_begin(&m, &vec![0, 0], 86_400_000).unwrap().source_ids, vec!["s"]);
    let mut trackers = TrackerStore::new();
    let fact = FactItem {
        fact: "用户喜欢茶".to_string(),
        fact_type: "preference".to_string(),
        importance: 755_000,
        topic: default_topic(),
    };
    let id = p.stage2_keep_fact(&mut m, &mut trackers, &fact, &batch.source_ids, 0, 7_000).unwrap();
    let kept = m.entries.last().unwrap();
    assert_eq!(kept.id, id);
    assert_eq!(kept.memory_type, "preference");
    assert_eq!(kept.tags, vec!["preference", "topic:general", "assistant"]);
    assert_eq!(kept.metadata.micros("promoted_at"), Some(7_000_000));
    assert_eq!(p.new_ltm_count, 1);
    assert_eq!(p.new_ltm_importance_sum, 76);
    assert!(p.stage2_reflect(&mut m, &batch, 1, 0, 0, false, 7_000));
    assert!(is_summarized(&m.entries[0]));
    assert_eq!(p.check_reflection_gate(&batch.key, 7_000), Gate::AlreadyDone);
    assert!(!p.stage2_reflect(&mut m, &batch, 0, 0, 0, false, 7_000));
}

#[test]
fn facts_become_insights() {
    let mut m = manager_with(vec![item("a", "甲", "user"), item("b", "乙", "preference"), item("c", "丙", "long_term")]);
    let mut p = ConsolidationPipeline::new(10, 600_000);
    assert!(p.stage3_begin(&m, 0).is_none());
    for _ in 0..5 {
        p.notify_new_ltm(100_000);
    }
    let batch = p.stage3_begin(&m, 0).unwrap();
    assert_eq!(batch.source_ids, vec!["a", "b", "c"]);
    let mut trackers = TrackerStore::new();
    let insight = |text: &str| InsightItem {
        insight: text.to_string(),
        importance: 700_000,
        source_ids: vec!["a".to_string(), "b".to_string()],
    };
    let out = p
        .stage3_insight(&mut m, &mut trackers, &batch, &vec![insight("洞察")], &[], 0, 9_000)
        .unwrap();
    assert_eq!((out.created, out.reinforced), (1, 0));
    assert_eq!(p.new_ltm_count, 0);
    assert_eq!(p.last_reflection_at, 9);
    let earlier = vec![m.entries.last().unwrap().clone()];
    assert_eq!(
        find_reinforce_target(&vec!["b".to_string(), "a".to_string()], &earlier),
        Some(earlier[0].id.clone())
    );
    assert_eq!(find_reinforce_target(&vec!["a".to_string()], &earlier), None);
    let out = p
        .stage3_insight(&mut m, &mut trackers, &batch, &vec![insight("又一次")], &earlier, 0, 9_000)
        .unwrap();
    assert_eq!((out.created, out.reinforced), (0, 1));
    let again = m.entries.last().unwrap();
    assert_eq!(again.content, "洞察\n又一次");
    assert!(matches!(again.metadata.get("reinforcement_count"), Some(MetaValue::Int(1))));
    assert!(p
        .stage3_insight(&mut m, &mut trackers, &batch, &Vec::new(), &[], 0, 9_000)
        .is_none());
    assert_eq!(p.reflection_backoff.len(), 1);
    let few = manager_with(vec![item("a", "甲", "user")]);
    for _ in 0..5 {
        p.notify_new_ltm(100_000);
    }
    assert!(p.stage3_begin(&few, 0).is_none());
    assert_eq!(p.new_ltm_count, 0);
}

#[test]
fn concepts_need_a_name() {
    let concept = |key: &str| ConceptItem {
        key: key.to_string(),
        value: "high".to_string(),
        meaning: String::new(),
        related_topics: Vec::new(),
        evidence_ids: Vec::new(),
        strength: 500_000,
    };
    let out = stage3_concept(&vec![concept("  "), concept(" ui ")]);
    assert_eq!(out.len(), 1);
    assert_eq!(out[0].key, "ui");
    let known = vec![KnownConcept {
        key: "ui".to_string(),
        value: "soft".to_string(),
        meaning: String::new(),
        related_topics: vec!["a".to_string(), "b".to_string()],
    }];
    let line = write_insight_line(&vec!["x".to_string(), "y".to_string()], "洞察");
    assert_eq!(line, "- [x,y] 洞察");
    let q = stage3_concept_prompt(&known, &vec![line]);
    assert!(q.contains("- ui（soft）相关主题：a / b"));
    assert!(stage3_concept_prompt(&Vec::new(), &Vec::new()).contains("（暂无）"));
}

#[test]
fn interrupted_work_is_taken_up() {
    let mut s = item("s", "摘要", "session_summary");
    s.metadata.insert("promoted_from", MetaValue::List(vec!["a".to_string()]));
    let mut m = manager_with(vec![s, item("a", "甲", "short_term"), item("b", "乙", "short_term")]);
    let key = progress_key_on("vivian", "2026-01-01");
    assert_eq!(key, "vivian|2026-01-01");
    assert!(progress_context_key("vivian").starts_with("vivian|"));
    let pending = vec!["a".to_string(), "b".to_string()];
    assert_eq!(complete_interrupted_stage1(&mut m, &key, "vivian|2026-01-02", &pending), 0);
    assert_eq!(complete_interrupted_stage1(&mut m, &key, &key, &pending), 1);
    assert!(is_summarized(&m.entries[1]) && !m.entries[2].consolidated);
}

#[test]
fn answers_are_cleaned_up() {
    let out = acquire_behaviors(
        &vec![AcquiredBehaviorItem {
            category: "skill".to_string(),
            description: "d".to_string(),
            confidence: 1_500_000,
        }],
        5,
    );
    assert_eq!(out[0].confidence, 1_000_000);
    assert_eq!(out[0].acquired_at, 5);
    assert!(keep_state(L1RecentStateUpdate::default()).is_none());
    let mut s = L1RecentStateUpdate::default();
    s.recent_goals.push("g".to_string());
    assert!(keep_state(s).is_some());
    assert_eq!(ConsolidationReport::default().stage1_summaries, 0);
    assert_eq!(topic_of(&"长".repeat(51)), format!("{}...", "长".repeat(50)));
    let similar = vec![("a".to_string(), "x".to_string(), 1), ("b".to_string(), "y".to_string(), 2)];
    assert_eq!(reassess_evidence_for_new_fact(&similar, &vec![false, true]), vec!["b"]);
}

#[test]
fn questions_hold_their_material() {
    assert!(stage2_extract_profile("材料").ends_with("会话摘要：\n材料"));
    let q = stage2_extract_dynamic_persona("核心", "材料");
    assert!(q.contains("避免噪音\n核心\n（上述为不可修改的人设核心"));
    assert!(stage2_extract_dynamic_persona("", "材料").contains("避免噪音\n## 输出格式"));
}

#[test]
fn words_are_counted_over_memories() {
    let mut a = item("a", "苹果", "水果");
    a.description = Some("苹果".to_string());
    let b = item("b", "天气", "x1");
    let one = tokenize_entry(&a);
    assert_eq!(one.freqs.get("苹果"), Some(&2));
    assert_eq!(one.token_count, 3);
    let counts = bm25_counts(&[a, b], "苹果").unwrap();
    assert_eq!(counts.documents, vec![1]);
    assert_eq!(counts.frequencies, vec![vec![2], vec![0]]);
    assert_eq!(counts.lengths[0], 3);
    assert!(bm25_counts(&[], "").is_none());
}

#[test]
fn personal_data_is_remembered_while_summing_up() {
    let mut m = manager_with(vec![item("a", "你好", "short_term")]);
    let mut trackers = TrackerStore::new();
    let first = detect_pii(&mut trackers, "call 13800138000")[0].tracker_id.clone();
    let p = ConsolidationPipeline::new(1, 600_000);
    let batch = p.stage1_begin(&m, 0).unwrap();
    let list = vec![summary("写信到 someone@example.com")];
    let out = p.stage1_summarize(&mut m, &mut trackers, &batch, &list, &vec![None], 0, 0).unwrap();
    assert_eq!(out.created, 1);
    assert!(!m.entries.last().unwrap().content.contains("someone@example.com"));
    let second = detect_pii(&mut TrackerStore::new(), "someone@example.com")[0].tracker_id.clone();
    assert_eq!(tracker_lookup(&trackers, &first), Some("13800138000".to_string()));
    assert_eq!(tracker_lookup(&trackers, &second), Some("someone@example.com".to_string()));
}
