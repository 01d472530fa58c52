use vivian_memory::memory_router::{arbitrate, build_router_prompt, contains_persistence_keyword, map_verdict,
    micros_to_string, needs_arbitration, parse_verdict, prompt_language, route_sync, route_with_reply,
    strip_code_fence, MemoryDestination, PromptLanguage, RouteContext};

fn ctx<'a>(
    content: &'a str,
    importance: i64,
    channel: &'a str,
) -> RouteContext<'a> {
    RouteContext {
        content,
        importance,
        channel,
        speaker: "user",
        listener: "ai",
        perspective: "ai",
        char_id: "ai",
    }
}

#[test]
fn rule1_low_importance_non_cross_is_ephemeral() {
    let c = ctx("嗯", 100_000, "chat");
    assert_eq!(route_sync(&c), MemoryDestination::Ephemeral);
}

#[test]
fn rule1_low_importance_cross_channel_not_ephemeral() {
    // cross_character + 低重要性 + 无持久性词汇 → 走默认 Personal
    let c = ctx("hi", 100_000, "cross_character");
    assert_eq!(route_sync(&c), MemoryDestination::Personal);
}

#[test]
fn rule2_cross_character_high_importance_is_relationship_fact() {
    let c = ctx("她总是吐槽我", 700_000, "cross_character");
    // 注意：这条同时命中持久性词汇"总是"，但规则 2 优先于规则 3
    assert_eq!(route_sync(&c), MemoryDestination::RelationshipFact);
}

#[test]
fn rule3_persistence_keyword_is_shared_world() {
    let c = ctx("我喜欢原神", 500_000, "chat");
    assert_eq!(route_sync(&c), MemoryDestination::SharedWorld);
}

#[test]
fn rule4_default_personal() {
    let c = ctx("今天天气不错", 500_000, "chat");
    assert_eq!(route_sync(&c), MemoryDestination::Personal);
}

#[test]
fn persistence_keyword_work_detection() {
    assert!(contains_persistence_keyword("我在北京工作"));
    assert!(contains_persistence_keyword("用户的职业是老师"));
    assert!(!contains_persistence_keyword("今天吃什么"));
}

#[test]
fn parse_verdict_plain_json() {
    let raw = r#"{"destination":"shared_world","reason":"用户偏好"}"#;
    let v = parse_verdict(raw).expect("应解析成功");
    assert_eq!(v.destination, "shared_world");
    assert_eq!(v.reason.as_deref(), Some("用户偏好"));
}

#[test]
fn parse_verdict_with_code_fence() {
    let raw = "```json\n{\"destination\":\"personal\"}\n```";
    let v = parse_verdict(raw).expect("应解析成功");
    assert_eq!(v.destination, "personal");
    assert!(v.reason.is_none());
}

#[test]
fn map_verdict_known_strings() {
    assert_eq!(
        map_verdict("personal").unwrap(),
        MemoryDestination::Personal
    );
    assert_eq!(
        map_verdict("relationship_fact").unwrap(),
        MemoryDestination::RelationshipFact
    );
    assert_eq!(
        map_verdict("shared_world").unwrap(),
        MemoryDestination::SharedWorld
    );
    assert_eq!(
        map_verdict("ephemeral").unwrap(),
        MemoryDestination::Ephemeral
    );
}

#[test]
fn map_verdict_unknown_returns_none() {
    assert!(map_verdict("unknown_layer").is_none());
}

#[test]
fn strip_fence_works() {
    assert_eq!(strip_code_fence("```json\n{\"x\":1}\n```"), r#"{"x":1}"#);
    assert_eq!(strip_code_fence(r#"{"x":1}"#), r#"{"x":1}"#);
}

#[test]
fn route_with_llm_skips_personal() {
    let c = ctx("今天天气不错", 500_000, "chat");
    let dest = route_with_reply(&c, Some(r#"{"destination":"ephemeral"}"#.to_string()));
    assert_eq!(dest, MemoryDestination::Personal);
}

#[test]
fn route_with_llm_confirms_candidate() {
    let c = ctx("我喜欢原神", 500_000, "chat");
    let dest = route_with_reply(
        &c,
        Some(r#"{"destination":"shared_world","reason":"用户偏好"}"#.to_string()),
    );
    assert_eq!(dest, MemoryDestination::SharedWorld);
}

#[test]
fn route_with_llm_overrides_candidate() {
    let c = ctx("我喜欢原神", 500_000, "chat");
    let dest = route_with_reply(&c, Some(r#"{"destination":"personal"}"#.to_string()));
    assert_eq!(dest, MemoryDestination::Personal);
}

#[test]
fn route_with_llm_falls_back_on_invalid_json() {
    let c = ctx("我喜欢原神", 500_000, "chat");
    let dest = route_with_reply(&c, Some("这不是 JSON".to_string()));
    assert_eq!(dest, MemoryDestination::SharedWorld);
}

#[test]
fn a_silent_model_changes_nothing() {
    let c = ctx("我喜欢原神", 500_000, "chat");
    assert_eq!(route_with_reply(&c, None), MemoryDestination::SharedWorld);
    assert_eq!(arbitrate(MemoryDestination::Ephemeral, None), MemoryDestination::Ephemeral);
}

#[test]
fn only_shared_layers_are_confirmed() {
    assert!(needs_arbitration(MemoryDestination::SharedWorld));
    assert!(needs_arbitration(MemoryDestination::RelationshipFact));
    assert!(!needs_arbitration(MemoryDestination::Personal));
    assert!(!needs_arbitration(MemoryDestination::Ephemeral));
}

#[test]
fn the_prompt_holds_what_is_routed() {
    assert_eq!(prompt_language("en"), PromptLanguage::English);
    assert_eq!(prompt_language("ja"), PromptLanguage::Japanese);
    assert_eq!(prompt_language("zh"), PromptLanguage::Chinese);
    assert_eq!(micros_to_string(500_000), "0.5");
    assert_eq!(micros_to_string(1_000_000), "1");
    let c = ctx("我喜欢原神", 500_000, "chat");
    let p = build_router_prompt(&c, PromptLanguage::Chinese);
    assert!(p.contains("我喜欢原神") && p.contains("chat") && p.contains("0.5"));
}

#[test]
fn a_verdict_may_be_a_list() {
    let v = parse_verdict(r#"["shared_world", "fits"]"#).unwrap();
    assert_eq!(v.destination, "shared_world");
    assert_eq!(v.reason.as_deref(), Some("fits"));
    assert!(parse_verdict(r#"["shared_world"]"#).unwrap().reason.is_none());
    assert!(parse_verdict(r#"["shared_world", "fits", 1]"#).is_none());
    assert!(parse_verdict("[]").is_none());
}

#[test]
fn a_verdict_names_each_field_once() {
    assert!(parse_verdict(r#"{"destination": "personal", "destination": "personal"}"#).is_none());
    assert!(parse_verdict(r#"{"destination": "personal", "reason": null, "reason": "x"}"#).is_none());
    let v = parse_verdict(r#"{"destination": "personal", "x": 1, "x": 1e999, "reason": null}"#).unwrap();
    assert_eq!(v.destination, "personal");
    assert!(v.reason.is_none());
    assert!(parse_verdict(r#"{"destination": "personal", "reason": 1}"#).is_none());
}
