use vivian_memory::types::{is_canonical_tag, seconds_value, Granularity, MemoryItem, MemoryType, MetaValue,
    Metadata, OpenHook, RetrievalStrategy, SemanticType};

#[test]
fn names_lead_back() {
    for t in SemanticType::all() {
        assert_eq!(SemanticType::from_str(t.as_str()), Some(t));
        assert!(is_canonical_tag(t.as_str()));
    }
    for g in Granularity::all() {
        assert_eq!(Granularity::parse(g.as_str()), Ok(g));
        assert_eq!(g.as_str().parse::<Granularity>(), Ok(g));
    }
    assert!(Granularity::parse("x").is_err());
    assert_eq!(MemoryType::from_str("long_term"), Some(MemoryType::LongTerm));
    assert_eq!(MemoryType::from_str("x"), None);
    assert_eq!(RetrievalStrategy::from_str("KEYWORD"), RetrievalStrategy::Keyword);
    assert_eq!(RetrievalStrategy::from_str("x"), RetrievalStrategy::Auto);
}

#[test]
fn metadata_are_merged() {
    let mut a = Metadata::new();
    a.insert("x", MetaValue::Int(1));
    a.insert("y", MetaValue::Bool(true));
    let mut b = Metadata::new();
    b.insert("x", MetaValue::Text("t".to_string()));
    b.insert("z", seconds_value(1_500));
    a.merge(&b);
    assert_eq!(a.text("x"), Some("t".to_string()));
    assert!(a.flag("y"));
    assert_eq!(a.micros("z"), Some(1_500_000));
    assert_eq!(a.len(), 3);
    a.insert_if_absent("x", MetaValue::Null);
    assert_eq!(a.text("x"), Some("t".to_string()));
}

#[test]
fn metadata_list_each_key_once() {
    let mut a = Metadata::new();
    assert_eq!(a.len(), 0);
    assert_eq!(a.key_at(0), None);
    a.insert("x", MetaValue::Int(1));
    a.insert("y", MetaValue::Int(2));
    a.insert("x", MetaValue::Int(3));
    assert_eq!(a.len(), 2);
    let mut keys: Vec<&str> = (0..a.len()).filter_map(|i| a.key_at(i)).collect();
    keys.sort();
    assert_eq!(keys, vec!["x", "y"]);
    assert_eq!(a.key_at(2), None);
}

#[test]
fn memories_match_queries() {
    let mut m = MemoryItem::new("Hello World".to_string(), Granularity::Turn, 500_000);
    m.tags = vec!["Greeting".to_string(), "greet".to_string()];
    assert!(m.matches_query("WORLD") && m.matches_query("greeting") && !m.matches_query("bye"));
    let whole = 1_000_000_000_000;
    assert_eq!(m.match_score("world", 1_000_000), 1_500_000 * whole);
    assert_eq!(m.match_score("greet", 0), 1_500_000 * 700_000_000_000);
    assert_eq!(m.match_score("bye", 0), 500_000 * 700_000_000_000);
    assert!(m.id.starts_with("mem_") && m.id.len() == 16);
}

#[test]
fn hooks_are_closed() {
    let mut h = OpenHook::new("promise", "c", 1);
    assert!(h.is_open());
    h.close(Some("m".to_string()), 2);
    assert!(!h.is_open());
    assert_eq!(h.closed_at, Some(2));
}

#[test]
fn each_kind_has_its_importance() {
    assert_eq!(SemanticType::User.default_importance(), 800_000);
    assert_eq!(SemanticType::Relationship.default_importance(), 700_000);
    assert_eq!(SemanticType::General.default_importance(), 200_000);
}
