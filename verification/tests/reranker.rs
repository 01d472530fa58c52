use vivian_memory::reranker::{build_reranker, documents_for_call, normalize_scores, place_scores, NoopReranker,
    RerankerChoice};
use vivian_memory::types::{Granularity, MemoryItem};

fn make_item(_id: &str, content: &str) -> MemoryItem {
    MemoryItem::new(content.to_string(), Granularity::Summary, 500_000)
}

#[test]
fn noop_preserves_order() {
    let docs = vec![make_item("a", "甲"), make_item("b", "乙"), make_item("c", "丙")];
    let scores = NoopReranker.rerank(&docs);
    assert_eq!(scores.len(), 3);
    assert!(scores[0] > scores[1] && scores[1] > scores[2]);
}

#[test]
fn normalize_scores_maps_to_unit_range() {
    let scores = normalize_scores(vec![200_000, 800_000, 500_000]);
    assert_eq!(scores, vec![0, 1_000_000, 500_000]);
}

#[test]
fn normalize_scores_handles_single() {
    let scores = normalize_scores(vec![700_000]);
    assert_eq!(scores, vec![0]);
}

#[test]
fn scores_go_to_their_places() {
    let placed = place_scores(3, &vec![(2, 900_000), (0, 100_000), (7, 5)]);
    assert_eq!(placed, vec![100_000, 0, 900_000]);
}

#[test]
fn a_reranker_needs_an_endpoint() {
    assert!(matches!(build_reranker(false, "http://x", "m"), RerankerChoice::Noop));
    assert!(matches!(build_reranker(true, "  ", "m"), RerankerChoice::Noop));
    match build_reranker(true, " http://x/ ", "m") {
        RerankerChoice::Ollama { endpoint, model } => {
            assert_eq!(endpoint, "http://x");
            assert_eq!(model, "m");
        }
        RerankerChoice::Noop => panic!("expected a client"),
    }
    let docs = vec![make_item("a", "甲")];
    assert_eq!(documents_for_call(&docs), vec!["甲"]);
}
