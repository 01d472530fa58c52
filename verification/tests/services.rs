use vivian_memory::ollama_service::{after_pull, is_model_installed, is_permission_error,
    is_proxy_connection_error, pull_outcome, retry_without_proxy, AfterPull, ChildState, OllamaServiceState,
    OllamaServiceStatus, StartAction};
use vivian_memory::ordered::{sort_dedup, sort_texts};
use vivian_memory::qdrant::{base_address, build_filter, collection_url, hnsw_params, is_local_address,
    named_hits, point_id, FilterClause};
use vivian_memory::session_compressor::{build_conversation_recap, inject_recap_if_available};
use vivian_memory::time_stamped::{compress_prompt, ChatMessage, TimeStampedMemory};
use vivian_memory::memory_router::PromptLanguage;
use vivian_memory::tokens::{jaccard_similarity, words_of_text};
use vivian_memory::topic_merger::{cluster_by_similarity, collect_candidates, merge_prompt, plan_merge,
    TopicMerger};
use vivian_memory::types::{Granularity, MemoryItem};

#[test]
fn points_have_stable_numbers() {
    assert_eq!(point_id(""), 0xcbf29ce484222325);
    assert_eq!(point_id("a"), 0xaf63dc4c8601ec8c);
    assert_eq!(point_id("foobar"), 0x85944171f73967e8);
}

#[test]
fn addresses_are_put_together() {
    assert_eq!(base_address("http://x//"), "http://x");
    assert!(is_local_address("http://localhost:6333") && is_local_address("http://127.0.0.1"));
    assert!(!is_local_address("http://example.com"));
    assert_eq!(collection_url("http://x", "c", "/points"), "http://x/collections/c/points");
    assert_eq!(hnsw_params(0, 1_000_000).0.max(1), hnsw_params(0, 1_000_000).0);
    let f = build_filter(&vec!["a".to_string(), "b".to_string()], Some(5), None);
    assert_eq!(f.len(), 2);
    assert!(matches!(&f[0], FilterClause::MemoryTypeIs(t) if t == "a"));
    assert!(matches!(f[1], FilterClause::Before(5)));
    assert_eq!(named_hits(vec![(String::new(), 1), ("x".to_string(), 2)]), vec![("x".to_string(), 2)]);
}

fn stopped() -> OllamaServiceState {
    OllamaServiceState {
        status: OllamaServiceStatus::Stopped,
        pid: None,
        error: None,
        endpoint: "http://localhost:11434".to_string(),
    }
}

#[test]
fn a_service_starts_runs_and_stops() {
    let mut s = stopped();
    assert_eq!(s.on_start(false, " ", false), StartAction::Report);
    assert_eq!(s.status, OllamaServiceStatus::Crashed);
    let mut s = stopped();
    assert_eq!(s.on_start(true, "", false), StartAction::Report);
    assert_eq!(s.status, OllamaServiceStatus::Running);
    let mut s = stopped();
    assert_eq!(s.on_start(false, "/bin/ollama", true), StartAction::Spawn);
    s.on_spawned(Some(7));
    assert_eq!(s.status, OllamaServiceStatus::Starting);
    s.on_health_check(true, false);
    assert_eq!(s.status, OllamaServiceStatus::Running);
    s.on_refresh(false, ChildState::Exited);
    assert_eq!(s.status, OllamaServiceStatus::Crashed);
    s.on_stopping();
    s.on_stopped();
    assert_eq!((s.status, s.pid), (OllamaServiceStatus::Stopped, None));
}

#[test]
fn models_are_recognised() {
    let list = vec!["bge-m3:latest".to_string()];
    assert!(is_model_installed(&list, "bge-m3"));
    assert!(is_model_installed(&list, "bge-m3:latest"));
    assert!(!is_model_installed(&list, "bge"));
    assert!(!is_model_installed(&list, ""));
    assert!(is_proxy_connection_error("proxyconnect tcp: x"));
    assert!(is_permission_error("Permission denied"));
    let (failed, proxy) = pull_outcome(false, "", "dial tcp: refused", false);
    assert!(!failed.success && proxy && retry_without_proxy(&failed, proxy));
    assert_eq!(after_pull(&failed, false), AfterPull::GiveUp);
    let (denied, _) = pull_outcome(false, "", "Permission denied", true);
    assert_eq!(after_pull(&denied, false), AfterPull::FixPermission);
    assert_eq!(after_pull(&denied, true), AfterPull::GiveUp);
    let (fine, _) = pull_outcome(true, "", "", false);
    assert_eq!(after_pull(&fine, false), AfterPull::Verify);
}

fn mergeable(id: &str, importance: i64) -> MemoryItem {
    let mut m = MemoryItem::new(format!("内容 {id}"), Granularity::Summary, importance);
    m.id = id.to_string();
    m.memory_type = "long_term".to_string();
    m.embedding = Some(vec![1]);
    m
}

#[test]
fn topics_are_merged() {
    let mut protected = mergeable("p", 500_000);
    protected.protected = true;
    let all = vec![mergeable("a", 500_000), mergeable("b", 700_000), mergeable("c", 600_000), protected];
    let items = collect_candidates(&all);
    assert_eq!(items.len(), 3);
    let similar = vec![
        vec![true, true, false],
        vec![true, true, false],
        vec![false, false, true],
    ];
    let clusters = cluster_by_similarity(&items, &similar);
    assert_eq!(clusters, vec![vec![0, 1]]);
    let cluster = vec![items[0].clone(), items[1].clone()];
    assert!(merge_prompt(&cluster).starts_with("待合并记忆：\n"));
    let plan = plan_merge(&cluster, " 合并 ", 0).unwrap();
    assert!(plan.importance >= 700_000);
    assert_eq!(plan.original_ids, vec!["a", "b"]);
    assert!(plan_merge(&cluster, " ", 0).is_none());
    assert!(plan_merge(&cluster[..1], "x", 0).is_none());
    let mut merger = TopicMerger::new();
    assert!(merger.takes(2) && !merger.takes(1));
    merger.note_merged(2);
    assert_eq!(merger.report().memories_removed, 2);
}

#[test]
fn a_recap_goes_first() {
    let mut tsm = TimeStampedMemory::new();
    assert!(build_conversation_recap(&tsm).is_none());
    let mut messages = vec![ChatMessage::user("你好")];
    inject_recap_if_available(&mut messages, &tsm);
    assert_eq!(messages.len(), 1);
    tsm.commit_summary("摘要".to_string(), &vec![ChatMessage::user("x")], 0);
    inject_recap_if_available(&mut messages, &tsm);
    assert_eq!(messages.len(), 2);
    assert!(messages[0].content.starts_with("[CONVERSATION RECAP]\n摘要\n"));
    assert_eq!(messages[0].role, "system");
}

#[test]
fn the_question_holds_the_conversation() {
    let list = vec![ChatMessage::user("你好"), ChatMessage::system("嗨")];
    let q = compress_prompt(PromptLanguage::Chinese, &list, &vec![Some("19:53".to_string()), None]);
    assert!(q.ends_with(
        "对话内容:\n[19:53] [User says to me] 你好\n[I say to User] 嗨\n\n摘要:"
    ));
    assert!(compress_prompt(PromptLanguage::English, &list, &vec![None, None]).ends_with("\n\nSummary:"));
}

#[test]
fn texts_are_sorted() {
    let v = vec!["b".to_string(), "a".to_string(), "b".to_string()];
    assert_eq!(sort_dedup(&v), vec!["a", "b"]);
    assert_eq!(sort_texts(&v), vec!["a", "b", "b"]);
}

#[test]
fn shared_words_are_weighed() {
    let a = words_of_text("我喜欢苹果");
    assert!(a.contains(&"苹果".to_string()));
    assert_eq!(jaccard_similarity(&a, &a), 1_000_000);
    let x = vec!["a".to_string(), "b".to_string()];
    let y = vec!["b".to_string(), "c".to_string(), "d".to_string()];
    assert_eq!(jaccard_similarity(&x, &y), 250_000);
}
