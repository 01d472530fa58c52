use vivian_memory::conflict::{detect_memory_conflict, recently_injected, ArbitrationOutcome, Candidate,
    ConflictAction, ConflictOutcome, ConflictStep, PendingConflict, MAX_PENDING};
use vivian_memory::manager::{MemoryManager, MAX_TOPIC_HINTS, SAVE_THROTTLE_MILLIS, TOPIC_HINT_MILLIS};
use vivian_memory::notes::{staleness_hints, EvidenceSnapshot, Health};
use vivian_memory::recording::{Prepared, Request};
use vivian_memory::recycle_bin::{RecycleBin, RecycleBinData};
use vivian_memory::redact::TrackerStore;
use vivian_memory::seed::{chunk_seed_content, parse_environment_presets, parse_micros, parse_specs,
    seed_memories};
use vivian_memory::store::{dedup_by_content, is_graph_visible_memory, is_observer_perspective, is_summarized};
use vivian_memory::types::{Granularity, MemoryItem, MemoryStoreData, MemoryType, MetaValue, Metadata, OpenHook,
    SemanticType};
use vivian_memory::writing::{build_context_prefix, embed_with_prefix, infer_tags_for_content,
    infer_world_fact_category, prefix_on_day, route_to_shared_world, should_enrich, world_action, Conversation,
    EnrichedMeta, WorldAction, WorldFactCategory};

fn manager_with(items: Vec<MemoryItem>) -> MemoryManager {
    MemoryManager::new(
        "vivian",
        MemoryStoreData { version: 4, entries: items },
        RecycleBin::new(RecycleBinData { entries: Vec::new() }),
        Vec::new(),
        50,
    )
}

fn item(id: &str, content: &str, importance: i64) -> MemoryItem {
    let mut m = MemoryItem::new(content.to_string(), Granularity::Summary, importance);
    m.id = id.to_string();
    m
}

fn ids(items: &[MemoryItem]) -> Vec<String> {
    items.iter().map(|m| m.id.clone()).collect()
}

fn plain(memory_type: MemoryType, importance: i64) -> Request {
    Request {
        memory_type,
        importance,
        tags: Vec::new(),
        metadata: None,
        related_ids: Vec::new(),
        timestamp_override: None,
        heat: 0,
    }
}

#[test]
fn infer_tags_long_term_preference() {
    let content = "我喜欢晚上看书，每天都会阅读至少半小时。";
    let tags = infer_tags_for_content(content, &MemoryType::ShortTerm);
    assert!(tags.contains(&"long_term".to_string()));
}

#[test]
fn infer_tags_temporary() {
    let content = "明天开会，别忘了。";
    let tags = infer_tags_for_content(content, &MemoryType::ShortTerm);
    assert!(tags.contains(&"temporary".to_string()));
}

#[test]
fn infer_tags_from_memory_type() {
    let content = "some content";
    let tags = infer_tags_for_content(content, &MemoryType::Preference);
    assert!(tags.contains(&"preference".to_string()));
}

#[test]
fn chunk_seed_content_splits_long_entries() {
    let content = "AlenTinn 创造了我。\n我第一次醒来的时候他就在那里，什么都不说，就看着我。\n他说：\"慢慢来，不着急。\"\n那时候我连\"着急\"是什么意思都不知道，但这句话我记住了。";
    let chunks = chunk_seed_content(content, 60);
    assert!(chunks.len() >= 2, "{}", chunks.len());
    assert!(chunks.iter().all(|c| c.chars().count() <= 60));
    assert!(chunks[0].contains("AlenTinn"));
}

#[test]
fn chunks_give_the_content_back() {
    for (content, max) in [("一。二！三", 2), ("没有标点的很长一句话", 3), ("", 5), ("甲。乙。", 0)] {
        let chunks = chunk_seed_content(content, max);
        assert_eq!(chunks.concat(), content);
        assert!(chunks.iter().all(|c| (1..=max.max(1)).contains(&c.chars().count())));
    }
    assert_eq!(chunk_seed_content("一。二！三", 4), vec!["一。二！", "三"]);
}

const DEFINITIONS: &str = "# comment\n---\ndescription: 描述\ntype: long_term\nimportance: 0.70\nprotected: true\ntags: a, ,b\n---\n第一行\n\n第二行\n---\ndescription: 下一条\n---\n下一条的内容\n";

#[test]
fn definitions_are_read() {
    let specs = parse_specs(DEFINITIONS);
    assert_eq!(specs.len(), 2);
    assert_eq!(specs[0].content, "第一行\n第二行");
    assert_eq!(specs[0].description, "描述");
    assert_eq!(specs[0].memory_type, "long_term");
    assert_eq!(specs[0].importance, 700_000);
    assert!(specs[0].protected);
    assert_eq!(specs[0].tags, vec!["a", "b"]);
    assert_eq!(specs[0].source, "system_seed");
    assert_eq!(specs[1].content, "下一条的内容");
    assert_eq!(specs[1].memory_type, "short_term");
    assert_eq!(specs[1].importance, 500_000);
    assert!(!specs[1].protected);
    let presets = parse_environment_presets(DEFINITIONS);
    assert_eq!(presets[0].source, "environment_preset");
    let apart = parse_specs("---\ntype: a\n---\nx\n---\n\n---\ntype: b\n---\ny\n---\n");
    assert_eq!(apart.len(), 2);
    assert_eq!(apart[1].memory_type, "b");
    assert!(parse_specs("no definitions\n").is_empty());
}

#[test]
fn decimal_numbers_are_read() {
    assert_eq!(parse_micros("0.70"), Some(700_000));
    assert_eq!(parse_micros("1"), Some(1_000_000));
    assert_eq!(parse_micros("-0.5"), Some(-500_000));
    assert_eq!(parse_micros("+2.25"), Some(2_250_000));
    assert_eq!(parse_micros(".5"), Some(500_000));
    assert_eq!(parse_micros("0.1234567"), Some(123_457));
    assert_eq!(parse_micros("0.1234564"), Some(123_456));
    assert_eq!(parse_micros("1."), Some(1_000_000));
    assert_eq!(parse_micros("1e-1"), Some(100_000));
    assert_eq!(parse_micros("5E2"), Some(500_000_000));
    assert_eq!(parse_micros("-2.5e+1"), Some(-25_000_000));
    assert_eq!(parse_micros("12345678901"), Some(12_345_678_901_000_000));
    assert_eq!(parse_micros("0.000000000000000000000000000001e30"), Some(1_000_000));
    assert_eq!(parse_micros("1e99999999999999999999999999999999999999"), Some(i64::MAX));
    assert_eq!(parse_micros("0e99999999999999999999999999999999999999"), Some(0));
    assert_eq!(parse_micros("7e-99999999999999999999999999999999999999"), Some(0));
    assert_eq!(parse_micros("inf"), Some(i64::MAX));
    assert_eq!(parse_micros("-Infinity"), Some(-i64::MAX));
    assert_eq!(parse_micros("1e"), None);
    assert_eq!(parse_micros("e5"), None);
    assert_eq!(parse_micros(".e5"), None);
    assert_eq!(parse_micros("1e2e3"), None);
    assert_eq!(parse_micros("1e5.0"), None);
    assert_eq!(parse_micros("--1"), None);
    assert_eq!(parse_micros("x"), None);
    assert_eq!(parse_micros(""), None);
    assert_eq!(parse_micros("1.2.3"), None);
}

#[test]
fn seeds_are_a_minute_apart_and_know_their_chunk() {
    let specs = parse_specs(DEFINITIONS);
    let seeds = seed_memories(&specs, "vivian", 1_000_000);
    assert_eq!(seeds.len(), 2);
    assert!(seeds.iter().all(|m| m.id.starts_with("seed_") && m.id.len() == 13));
    assert_eq!(seeds[0].timestamp, 940_000);
    assert_eq!(seeds[1].timestamp, 1_000_000);
    assert!(seeds[0].metadata.get("seed_chunk").is_none());
    let long = parse_specs(&format!("---\ntags: cross_character\n---\n{}\n", "长".repeat(130)));
    let chunks = seed_memories(&long, "vivian", 0);
    assert_eq!(chunks.len(), 3);
    assert!(matches!(chunks[2].metadata.get("chunk_index"), Some(MetaValue::Int(2))));
    assert!(matches!(chunks[2].metadata.get("chunk_total"), Some(MetaValue::Int(3))));
    assert_eq!(chunks[0].metadata.text("listener"), Some("nana".to_string()));
}

#[test]
fn seeding_happens_once() {
    let specs = parse_specs(DEFINITIONS);
    let mut m = manager_with(vec![item("m1", "x", 0)]);
    assert!(m.seed_if_empty(&specs, 0));
    assert_eq!(m.entry_count(), 3);
    assert_eq!(m.non_seed_count(), 1);
    assert!(!m.seed_if_empty(&specs, 0));
    assert_eq!(m.entry_count(), 3);
    m.clear_all_memories(&specs, 0);
    assert_eq!(m.entry_count(), 2);
}

#[test]
fn seeds_fade_beside_real_memories() {
    let mut list = vec![item("seed_a", "甲", 700_000), item("seed_b", "乙", 700_000)];
    list[1].protected = true;
    for i in 0..20 {
        list.push(item(&format!("m{i}"), "x", 100_000));
    }
    let mut m = manager_with(list);
    m.decay_seed_memories();
    assert_eq!(m.entries[0].importance, 500_000);
    assert_eq!(m.entries[1].importance, 700_000);
    assert_eq!(m.entries[2].importance, 100_000);
    m.decay_seed_memories();
    m.decay_seed_memories();
    assert_eq!(m.entries[0].importance, 300_000);
}

#[test]
fn topics_are_kept_once_and_for_a_day() {
    let mut m = manager_with(Vec::new());
    m.push_topic_hint("  ", 0);
    m.push_topic_hint(" 甲 ", 0);
    m.push_topic_hint("乙", 5);
    m.push_topic_hint("甲", 10);
    assert_eq!(m.topic_hints.len(), 2);
    assert_eq!(m.drain_topic_hints(TOPIC_HINT_MILLIS + 6), vec!["甲"]);
    assert!(m.topic_hints.is_empty());
    for i in 0..MAX_TOPIC_HINTS + 3 {
        m.push_topic_hint(&format!("t{i}"), 0);
    }
    assert_eq!(m.topic_hints.len(), MAX_TOPIC_HINTS);
    assert_eq!(m.topic_hints[0].query, "t3");
}

#[test]
fn a_full_granularity_marks_its_oldest() {
    let mut m = manager_with(Vec::new());
    m.turn_capacity = 2;
    for i in 0..3 {
        m.add_turn(&format!("q{i}"), "a", 0, i);
    }
    assert_eq!(m.entry_count(), 3);
    assert!(is_summarized(&m.entries[0]));
    assert!(!m.entries[1].consolidated && !m.entries[2].consolidated);
    assert_eq!(m.entries[0].content, "User: q0\nAI: a");
    assert_eq!(m.entries[2].timestamp, 2);
    assert_eq!(m.get_all_memories().len(), 2);
    assert_eq!(
        m.get_memory_summary(),
        "记忆总数: 3 | turn=3 | session=0 | summary=0 | keyword=0"
    );
}

#[test]
fn sessions_keep_their_keywords() {
    let mut m = manager_with(Vec::new());
    let s = m.add_session("总结", &vec!["甲".to_string(), String::new(), "乙".to_string()], 600_000, 9);
    assert_eq!(m.entry_count(), 3);
    assert_eq!(s.related_ids, vec![s.id.clone()]);
    assert_eq!(m.entries[0].id, s.id);
    assert_eq!(m.entries[1].content, "甲");
    assert_eq!(m.entries[1].importance, 300_000);
    assert_eq!(m.entries[2].related_ids, vec![s.id.clone()]);
    assert_eq!(m.entries[0].tags, vec!["session"]);
}

#[test]
fn deleted_memories_come_back() {
    let mut m = manager_with(vec![item("a", "甲", 0), item("b", "乙", 0)]);
    assert!(m.delete_memory("a", 7));
    assert!(!m.delete_memory("a", 7));
    assert_eq!(ids(&m.entries), vec!["b"]);
    assert_eq!(m.recycle_bin_count(), 1);
    assert_eq!(m.list_recycle_bin()[0].reason, "manual_delete");
    let back = m.restore_memory("a").unwrap();
    assert_eq!(back.content, "甲");
    assert_eq!(ids(&m.entries), vec!["b", "a"]);
    assert!(m.restore_memory("a").is_none());
    m.hard_delete_memory("b");
    assert_eq!(m.recycle_bin_count(), 0);
    assert_eq!(ids(&m.entries), vec!["a"]);
    m.soft_delete_memory("a", "old", 0);
    assert_eq!(m.purge_expired_recycle_bin(604_800_000), 1);
    assert!(!m.purge_recycle_entry("a"));
    assert_eq!(m.purge_all_recycle_bin(), 0);
}

#[test]
fn archived_and_summed_up_memories_differ() {
    let mut m = manager_with(vec![item("a", "甲", 0), item("b", "乙", 0), item("c", "丙", 0)]);
    assert!(m.archive_memory("a"));
    assert!(m.mark_summarized("b"));
    assert!(!m.archive_memory("x"));
    assert!(!is_summarized(&m.entries[0]) && is_summarized(&m.entries[1]));
    assert!(!is_graph_visible_memory(&m.entries[0]));
    assert!(is_graph_visible_memory(&m.entries[1]));
    assert_eq!(ids(&m.get_all_memories()), vec!["c"]);
    assert_eq!(ids(&m.search_entries()), vec!["b", "c"]);
    assert_eq!(m.timeline_points().len(), 2);
    let t = m.entries[2].timestamp;
    assert_eq!(ids(&m.memories_in_range(t, t + 1)).last(), Some(&"c".to_string()));
    assert!(m.memories_in_range(t + 1_000_000, t + 2_000_000).is_empty());
    assert_eq!(
        ids(&m.get_memories_by_ids(&vec!["c".to_string(), "a".to_string(), "c".to_string()])),
        vec!["c"]
    );
}

#[test]
fn metadata_hooks_and_content_are_changed() {
    let mut m = manager_with(vec![item("a", "甲", 0)]);
    let mut patch = Metadata::new();
    patch.insert("k", MetaValue::Int(2));
    m.entries[0].metadata.insert("k", MetaValue::Int(1));
    m.entries[0].metadata.insert("l", MetaValue::Bool(true));
    assert!(m.patch_memory_metadata("a", &patch));
    assert!(matches!(m.entries[0].metadata.get("k"), Some(MetaValue::Int(2))));
    assert!(m.entries[0].metadata.flag("l"));
    assert!(!m.patch_memory_metadata("x", &patch));
    assert!(m.attach_open_hook("a", OpenHook::new("follow_up", "c", 1)));
    assert!(!m.attach_open_hook("a", OpenHook::new("follow_up", "d", 2)));
    assert!(m.attach_open_hook("a", OpenHook::new("promise", "d", 2)));
    assert_eq!(ids(&m.get_memories_with_open_hooks()), vec!["a"]);
    assert!(m.update_open_hooks("a", Vec::new()));
    assert!(m.get_memories_with_open_hooks().is_empty());
    m.entries[0].tags = vec!["x".to_string(), "insight".to_string(), "user".to_string()];
    let index = m.replace_content_and_reindex("a", "新").unwrap();
    assert_eq!(index.memory_type, "insight");
    assert_eq!(m.get_memory_content_by_id("a"), Some("新".to_string()));
    assert_eq!(m.get_memory_content_by_id("x"), None);
    assert!(m.replace_content_and_reindex("x", "新").is_none());
}

#[test]
fn visits_count_and_lift() {
    let mut m = manager_with(vec![item("a", "甲", 500_000), item("b", "乙", 980_000)]);
    m.bump_visits(
        &vec!["a".to_string(), "b".to_string(), "x".to_string(), "a".to_string()],
        &vec![1, 2, 3, 4],
        77,
    );
    assert_eq!(m.entries[0].visit_count, 2);
    assert_eq!(m.entries[0].importance, 600_000);
    assert_eq!(m.entries[0].heat_score, 4);
    assert_eq!(m.entries[1].importance, 1_000_000);
    assert_eq!(m.entries[1].last_visit_at, 77);
}

#[test]
fn episodes_are_filled_in_once() {
    let mut m = manager_with(vec![item("a", "甲", 0), item("b", "乙", 0)]);
    m.entries[1].episode_id = Some("e0".to_string());
    let n = m.backfill_episode_id(&vec!["a".to_string(), "b".to_string(), "x".to_string()], "e1");
    assert_eq!(n, 1);
    assert_eq!(m.entries[0].episode_id.as_deref(), Some("e1"));
    assert_eq!(m.entries[1].episode_id.as_deref(), Some("e0"));
}

#[test]
fn the_latest_and_the_heaviest_are_found() {
    let mut list = vec![item("a", "甲", 900_000), item("b", "乙", 200_000), item("c", "丙", 700_000)];
    for (i, m) in list.iter_mut().enumerate() {
        m.timestamp = i as i64;
        m.tags = vec!["important_event".to_string()];
    }
    let m = manager_with(list);
    assert_eq!(ids(&m.recent_by_type(MemoryType::ImportantEvent, 2)), vec!["c", "b"]);
    assert_eq!(ids(&m.recent_by_tags(&vec!["important_event".to_string()], 9)), vec!["c", "b", "a"]);
    assert!(m.recent_by_type(MemoryType::User, 2).is_empty());
    assert_eq!(ids(&m.get_high_importance_memories(500_000, 5)), vec!["a", "c"]);
}

#[test]
fn contents_are_kept_once() {
    let list = vec![item("a", "Hello", 0), item("b", " hello ", 0), item("c", "bye", 0)];
    assert_eq!(ids(&dedup_by_content(&list)), vec!["a", "c"]);
    let mut watched = item("d", "x", 0);
    watched.metadata.insert("perspective", MetaValue::Text("observer".to_string()));
    assert!(is_observer_perspective(&watched.metadata));
    assert!(!is_observer_perspective(&list[0].metadata));
}

#[test]
fn documents_expire_and_are_listed() {
    let mut m = manager_with(Vec::new());
    let d = m.add_knowledge_document(
        "题",
        "内容",
        &vec!["x".to_string(), "document".to_string()],
        "web",
        Some(7),
        0,
        1_000,
    );
    assert_eq!(d.tags, vec!["document", "knowledge", "x"]);
    assert_eq!(d.description.as_deref(), Some("题"));
    assert!(matches!(d.metadata.get("ttl_days"), Some(MetaValue::Int(7))));
    assert_eq!(d.metadata.micros("expires_at"), Some(604_801_000_000));
    let forever = m.add_knowledge_document("题", "丙", &Vec::new(), "web", Some(-3), 0, 2_000);
    assert!(matches!(forever.metadata.get("ttl_days"), Some(MetaValue::Int(-1))));
    assert!(forever.metadata.get("expires_at").is_none());
    assert_eq!(ids(&m.list_knowledge_documents()), vec![forever.id.clone(), d.id.clone()]);
    assert!(!m.delete_knowledge_document("x", 0));
    assert!(m.delete_knowledge_document(&d.id, 0));
    m.clear_knowledge_documents(0);
    assert_eq!(m.entry_count(), 0);
    assert_eq!(m.recycle_bin_count(), 2);
}

#[test]
fn diary_entries_are_kept_and_deleted() {
    let mut m = manager_with(Vec::new());
    let d = m.add_diary_entry("d1", "2026-01-01", "今天", "happy", 0, 5);
    assert_eq!(d.description.as_deref(), Some("日记 2026-01-01 (happy)"));
    assert_eq!(d.tags, vec!["2026-01-01", "diary", "happy"]);
    assert_eq!(d.memory_type, "long_term");
    assert!(!is_graph_visible_memory(&d));
    assert!(!m.delete_diary_memory("d2", 6));
    assert!(m.delete_diary_memory("d1", 6));
    assert_eq!(m.entry_count(), 0);
}

#[test]
fn personal_data_do_not_reach_the_store() {
    let mut m = manager_with(Vec::new());
    let mut trackers = TrackerStore::new();
    m.set_session_id(Some("s1".to_string()));
    assert_eq!(m.get_session_id().as_deref(), Some("s1"));
    assert_eq!(m.char_id(), "vivian");
    let kept = m
        .add_memory(&mut trackers, "我的邮箱是 a@b.com 记住", MemoryType::User, 2_000_000, Vec::new(), 3, 9)
        .unwrap();
    assert!(!kept.content.contains("a@b.com"));
    assert_eq!(kept.importance, 1_000_000);
    assert_eq!(kept.memory_type, "user");
    assert_eq!(kept.metadata.text("session_id"), Some("s1".to_string()));
    assert_eq!(kept.metadata.text("redact_status"), Some("redacted".to_string()));
    assert!(matches!(kept.metadata.get("pii_spans"), Some(MetaValue::Spans(_))));
    assert_eq!(m.entry_count(), 1);
    let skipped =
        m.add_memory(&mut trackers, "a@b.com", MemoryType::User, 0, Vec::new(), 0, 9).unwrap();
    assert!(skipped.metadata.flag("pii_skipped"));
    assert_eq!(m.entry_count(), 1);
}

#[test]
fn writing_keeps_what_it_is_given() {
    let mut m = manager_with(Vec::new());
    let mut trackers = TrackerStore::new();
    let mut meta = Metadata::new();
    meta.insert("speaker", MetaValue::Text("user".to_string()));
    let kept = m
        .add_memory_with_metadata(
            &mut trackers,
            "今天见",
            MemoryType::ShortTerm,
            -5,
            vec!["t".to_string()],
            meta,
            0,
            9,
        )
        .unwrap();
    assert_eq!(kept.tags, vec!["t"]);
    assert_eq!(kept.importance, 0);
    assert_eq!(kept.granularity, "turn");
    assert_eq!(kept.metadata.text("speaker"), Some("user".to_string()));
    let mut request = plain(MemoryType::LongTerm, 100_000);
    request.related_ids = vec!["r".to_string()];
    request.timestamp_override = Some(3);
    let merged = m.add_merged_memory(&mut trackers, "合并", request, 11).unwrap();
    assert_eq!(merged.related_ids, vec!["r"]);
    assert_eq!(merged.timestamp, 3);
    assert_eq!(m.entries[1].timestamp, 11);
}

#[test]
fn a_description_is_added_to_lasting_memories_only() {
    let mut m = manager_with(Vec::new());
    let mut trackers = TrackerStore::new();
    let said = || EnrichedMeta {
        description: Some("描述".to_string()),
        keywords: vec!["k".to_string()],
        importance: Some(900_000),
        semantic_type: SemanticType::User,
        mood_tags: Vec::new(),
        summary: Some("概要".to_string()),
    };
    let a = m
        .add_memory_enriched(
            &mut trackers,
            "我喜欢茶",
            MemoryType::LongTerm,
            100_000,
            Vec::new(),
            Some(said()),
            0,
            1,
        )
        .unwrap();
    assert_eq!(a.importance, 900_000);
    assert_eq!(a.description.as_deref(), Some("描述"));
    assert_eq!(a.metadata.text("semantic_type"), Some("user".to_string()));
    assert_eq!(a.metadata.list("keywords"), vec!["k"]);
    assert!(a.metadata.get("mood_tags").is_none());
    assert_eq!(m.entries[0].metadata.text("summary"), Some("概要".to_string()));
    let b = m
        .add_memory_enriched_with_metadata(
            &mut trackers,
            "闲聊",
            plain(MemoryType::CasualConversation, 100_000),
            Some(said()),
            1,
        )
        .unwrap();
    assert_eq!(b.importance, 100_000);
    assert!(b.description.is_none());
    assert!(should_enrich(MemoryType::Knowledge) && !should_enrich(MemoryType::ShortTerm));
}

#[test]
fn prepared_memories_say_what_is_embedded() {
    let m = manager_with(Vec::new());
    let mut trackers = TrackerStore::new();
    let mut request = plain(MemoryType::LongTerm, 0);
    let mut meta = Metadata::new();
    meta.insert("speaker", MetaValue::Text("user".to_string()));
    meta.insert("listener", MetaValue::Text("vivian".to_string()));
    request.metadata = Some(meta);
    match m.prepare_memory(&mut trackers, "内容", request, Some("概要"), 1_704_110_400_000) {
        Prepared::Draft(item, text) => {
            assert_eq!(item.content, "内容");
            assert!(text.starts_with("[2024-01-0"), "{text}");
            assert!(text.ends_with(" user对vivian说]：概要"), "{text}");
            assert_eq!(text, format!("{}：概要", build_context_prefix(&item)));
        }
        _ => panic!("expected a draft"),
    }
}

#[test]
fn prefixes_hold_day_and_speaker() {
    let mut meta = Metadata::new();
    assert_eq!(prefix_on_day(&meta, None), "");
    assert_eq!(prefix_on_day(&meta, Some("2024-01-01".to_string())), "[2024-01-01]");
    meta.insert("speaker", MetaValue::Text("甲".to_string()));
    assert_eq!(prefix_on_day(&meta, Some("2024-01-01".to_string())), "[2024-01-01 甲说]");
    meta.insert("listener", MetaValue::Text("甲".to_string()));
    assert_eq!(prefix_on_day(&meta, None), "[甲说]");
    meta.insert("listener", MetaValue::Text("乙".to_string()));
    assert_eq!(prefix_on_day(&meta, None), "[甲对乙说]");
    let mut m = item("a", " 内容 ", 0);
    m.description = Some(" 描述 ".to_string());
    assert_eq!(embed_with_prefix(&m, "[前缀]"), "[前缀]：内容：描述");
    m.description = None;
    assert_eq!(embed_with_prefix(&m, ""), "内容");
}

#[test]
fn conversations_leave_memories() {
    let m = manager_with(Vec::new());
    let c = Conversation {
        user_input: Some(" 你好 ".to_string()),
        user_prefix: Some("[User says to me]".to_string()),
        replies: vec!["嗨".to_string(), "  ".to_string(), "在".to_string()],
        reply_prefixes: vec![None, None, Some("[I say to User]".to_string())],
        long_term_memory: Some("用户打了招呼".to_string()),
        user_emotion: " ".to_string(),
        ai_emotion: None,
        importance_user: 200_000,
        importance_ai: 900_000,
    };
    let w = m.save_context(&c);
    assert_eq!(w.len(), 4);
    assert_eq!(w[0].content, "[User says to me] 你好");
    assert_eq!(w[0].tags, vec!["short_term", "user", "dialogue_turn", "neutral"]);
    assert_eq!(w[0].metadata.text("listener"), Some("vivian".to_string()));
    assert_eq!(w[1].content, "嗨");
    assert_eq!(w[1].importance, 250_000);
    assert_eq!(w[2].content, "[I say to User] 在");
    assert_eq!(w[2].importance, 300_000);
    assert_eq!(w[3].memory_type, MemoryType::LongTerm);
    assert_eq!(w[3].importance, 900_000);
    assert_eq!(w[3].tags, vec!["llm_generated"]);
    let bare = m.save_context_with_metadata(&c, Some(Metadata::new()), None);
    assert_eq!(bare[0].content, "你好");
}

#[test]
fn conflicts_are_found_and_settled() {
    let list = vec![item("old", "喜欢咖啡", 500_000), item("weak", "x", 100_000)];
    let found = vec![
        Candidate { memory_id: "weak".to_string(), score: 990_000 },
        Candidate { memory_id: "old".to_string(), score: 450_000 },
        Candidate { memory_id: "gone".to_string(), score: 999_000 },
    ];
    assert!(matches!(
        detect_memory_conflict(&list, &found, ConflictAction::KeepBoth),
        ConflictOutcome::KeepBoth
    ));
    match detect_memory_conflict(&list, &found, ConflictAction::QueueLlm) {
        ConflictOutcome::QueueLlm { old_id, old_content, similarity } => {
            assert_eq!((old_id.as_str(), old_content.as_str(), similarity), ("old", "喜欢咖啡", 450_000));
        }
        _ => panic!("expected a queue"),
    }
    let low = vec![Candidate { memory_id: "old".to_string(), score: 449_999 }];
    assert!(matches!(
        detect_memory_conflict(&list, &low, ConflictAction::ReplaceOld),
        ConflictOutcome::KeepBoth
    ));
    let mut m = manager_with(list);
    let new = item("new", "不喜欢咖啡", 500_000);
    m.commit_memory(
        new,
        ConflictOutcome::MergeSupersede { old_id: "old".to_string(), old_content: "喜欢咖啡".to_string() },
        "合并后",
        "",
        9,
    );
    assert_eq!(ids(&m.entries), vec!["weak", "new"]);
    assert_eq!(m.entries[1].content, "合并后");
    let similar = m.find_similar_persistent_memories(&vec![Candidate {
        memory_id: "new".to_string(),
        score: 900_000,
    }]);
    assert!(similar.is_empty());
    m.entries[1].memory_type = "long_term".to_string();
    let similar = m.find_similar_persistent_memories(&vec![Candidate {
        memory_id: "new".to_string(),
        score: 900_000,
    }]);
    assert_eq!(similar, vec![("new".to_string(), "合并后".to_string(), 900_000)]);
    let mut more = item("more", "更像", 500_000);
    more.memory_type = "user".to_string();
    m.entries.push(more);
    let both = vec![
        Candidate { memory_id: "new".to_string(), score: 900_000 },
        Candidate { memory_id: "more".to_string(), score: 950_000 },
    ];
    let similar = m.find_similar_persistent_memories(&both);
    assert_eq!(similar[0].0, "more");
    assert_eq!(similar[1].0, "new");
    let mut seen = item("s", "x", 0);
    assert!(!recently_injected(&seen, 0));
    seen.visit_count = 1;
    assert!(recently_injected(&seen, 3_599_999));
    assert!(!recently_injected(&seen, 3_600_000));
}

fn pending(id: &str, new: &str, old: &str) -> PendingConflict {
    PendingConflict {
        id: id.to_string(),
        new_memory_id: new.to_string(),
        new_content: String::new(),
        old_memory_id: old.to_string(),
        old_content: String::new(),
        similarity: 0,
        created_at: 0,
        retry_count: 0,
    }
}

#[test]
fn waiting_conflicts_are_worked_on() {
    let mut m = manager_with(vec![
        item("n1", "新一", 0),
        item("o1", "旧一", 0),
        item("n2", "新二", 0),
        item("o2", "旧二", 0),
    ]);
    m.pending_conflicts = vec![
        pending("replace", "n1", "o1"),
        pending("gone", "n1", "x"),
        pending("no new", "x", "o2"),
        pending("failed", "n2", "o2"),
        pending("merge", "n2", "o2"),
        pending("later", "n2", "o2"),
    ];
    assert_eq!(m.pending_conflict_count(), 6);
    assert_eq!(m.pending_step(0), ConflictStep::Ask);
    assert_eq!(m.pending_step(1), ConflictStep::Settled);
    assert_eq!(m.pending_step(2), ConflictStep::Wait);
    let n = m.process_pending_conflicts(
        vec![
            Some(ArbitrationOutcome::ReplaceOld),
            None,
            None,
            None,
            Some(ArbitrationOutcome::MergeSupersede("合".to_string())),
        ],
        42,
    );
    assert_eq!(n, 3);
    assert_eq!(ids(&m.entries), vec!["n1", "n2"]);
    assert_eq!(m.entries[1].content, "合");
    assert_eq!(m.entries[1].timestamp, 42);
    let left: Vec<(String, u32)> =
        m.pending_conflicts.iter().map(|c| (c.id.clone(), c.retry_count)).collect();
    assert_eq!(
        left,
        vec![("later".to_string(), 0), ("no new".to_string(), 1), ("failed".to_string(), 1)]
    );
    let mut often = pending("often", "n1", "n2");
    often.retry_count = 2;
    m.pending_conflicts = vec![often];
    assert_eq!(m.process_pending_conflicts(vec![None], 43), 0);
    assert_eq!(m.pending_conflicts[0].retry_count, 3);
    assert_eq!(m.process_pending_conflicts(vec![None], 44), 0);
    assert!(m.pending_conflicts.is_empty());
}

#[test]
fn a_full_queue_takes_no_conflict() {
    let mut m = manager_with(Vec::new());
    for i in 0..MAX_PENDING + 1 {
        m.commit_memory(
            item(&format!("m{i}"), "x", 0),
            ConflictOutcome::QueueLlm {
                old_id: "o".to_string(),
                old_content: "c".to_string(),
                similarity: 1,
            },
            "",
            "id",
            0,
        );
    }
    assert_eq!(m.pending_conflict_count(), MAX_PENDING);
    assert_eq!(m.pending_conflicts[0].new_memory_id, "m0");
}

#[test]
fn saving_waits_a_while() {
    let mut m = manager_with(Vec::new());
    assert!(!m.flush() && !m.save_due(0));
    m.add_turn("q", "a", 0, 1);
    assert!(m.flush() && m.save_due(1));
    m.saved(10);
    assert!(!m.flush());
    m.add_turn("q", "a", 0, 11);
    assert!(!m.save_due(10 + SAVE_THROTTLE_MILLIS - 1));
    assert!(m.save_due(10 + SAVE_THROTTLE_MILLIS));
}

#[test]
fn facts_of_the_world_are_sorted() {
    assert_eq!(infer_world_fact_category("我喜欢原神"), WorldFactCategory::UserPreference);
    assert_eq!(infer_world_fact_category("约定不打扰"), WorldFactCategory::HouseRule);
    assert_eq!(infer_world_fact_category("他住在北京"), WorldFactCategory::Environment);
    assert_eq!(infer_world_fact_category("一起看番"), WorldFactCategory::SharedEvent);
    let meta = Metadata::new();
    match world_action("我喜欢原神", 500_000, &meta, "vivian", "m1", None, 42, 1_000) {
        WorldAction::Append(f) => {
            assert_eq!(f.id, "wf-1000-42");
            assert_eq!(f.contributors, vec!["vivian"]);
            assert_eq!(f.source_event_ids, vec!["m1"]);
            assert_eq!(f.category, WorldFactCategory::UserPreference);
        }
        _ => panic!("expected a fact"),
    }
    assert!(matches!(
        world_action("我喜欢原神", 500_000, &meta, "vivian", "m1", Some("f".to_string()), 0, 0),
        WorldAction::Reinforce(id) if id == "f"
    ));
    assert!(matches!(
        route_to_shared_world("今天天气", 500_000, &meta, "vivian", "m1", None, 0),
        WorldAction::Skip
    ));
    match route_to_shared_world("我喜欢原神", 500_000, &meta, "vivian", "m1", None, 7) {
        WorldAction::Append(f) => assert!(f.id.starts_with("wf-7-")),
        _ => panic!("expected a fact"),
    }
}

#[test]
fn evidence_and_health_are_noted() {
    let mut m = manager_with(vec![item("a", "甲", 500_000), item("b", "乙", 500_000)]);
    let e = EvidenceSnapshot {
        reinforcement: 2_000_000,
        disputation: 1_000_000,
        rein_last_signal_at: 5,
        disp_last_signal_at: 6,
        user_fact_reinforce_count: 3,
    };
    assert!(!m.apply_evidence_to_memory("x", &e));
    assert!(m.apply_evidence_to_memory("b", &e));
    assert_eq!(m.entries[1].reinforcement, 2_000_000);
    assert_eq!(m.entries[1].disp_last_signal_at, 6);
    assert_eq!(m.entries[0].reinforcement, 0);
    let health = vec![
        Health { score: 900_000, grade: "healthy".to_string(), evidence: 0 },
        Health { score: 100_000, grade: "weak".to_string(), evidence: 0 },
    ];
    let listed = m.evaluate_lifecycle_health(&health);
    assert_eq!(listed[1], ("b".to_string(), 100_000, "weak".to_string()));
    assert_eq!(m.memory_health("b", &vec![1, 2]), 2);
    assert_eq!(m.memory_health("x", &vec![1, 2]), 0);
    let hints = staleness_hints(&m.entries, vec![None, Some("旧".to_string())]);
    assert_eq!(hints, vec![("a".to_string(), None), ("b".to_string(), Some("旧".to_string()))]);
}

#[test]
fn the_bin_is_saved_after_a_change() {
    let mut m = manager_with(vec![item("a", "甲", 0), item("b", "乙", 0), item("c", "丙", 0)]);
    assert!(!m.recycle_bin.needs_save());
    assert!(!m.delete_memory("x", 1));
    assert!(m.restore_memory("a").is_none());
    assert!(!m.purge_recycle_entry("a"));
    assert_eq!(m.purge_expired_recycle_bin(1), 0);
    assert!(!m.recycle_bin.needs_save());
    assert!(m.delete_memory("a", 1));
    assert!(m.recycle_bin.needs_save());
    m.recycle_bin.saved();
    assert!(m.restore_memory("a").is_some());
    assert!(m.recycle_bin.needs_save());
    m.recycle_bin.saved();
    assert!(m.soft_delete_memory("b", "why", 1));
    assert!(m.purge_recycle_entry("b"));
    assert!(m.recycle_bin.needs_save());
    m.recycle_bin.saved();
    assert_eq!(m.purge_all_recycle_bin(), 0);
    assert!(m.recycle_bin.needs_save());
}
