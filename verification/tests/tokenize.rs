use vivian_memory::tokenize::{tokenize, tokens_of_pieces};

#[test]
fn test_tokenize_chinese() {
    let tokens = tokenize("我喜欢吃苹果");
    assert!(tokens.contains(&"喜欢".to_string()) || tokens.contains(&"我".to_string()));
}

#[test]
fn test_tokenize_english() {
    let tokens = tokenize("Hello World");
    assert!(tokens.contains(&"hello".to_string()));
    assert!(tokens.contains(&"world".to_string()));
}

#[test]
fn test_tokenize_mixed() {
    let tokens = tokenize("使用 React 18 开发");
    assert!(tokens.iter().any(|t| t == "react"));
    assert!(tokens.iter().any(|t| t == "使用"));
}

#[test]
fn test_tokenize_empty() {
    assert!(tokenize("").is_empty());
    assert!(tokenize("   ").is_empty());
    assert!(tokenize("...").is_empty());
}

#[test]
fn pieces_become_words_in_lower_case() {
    let pieces = vec!["Rust".to_string(), " ".to_string(), "语言".to_string()];
    assert_eq!(tokens_of_pieces(&pieces), vec!["rust", "语言"]);
}
