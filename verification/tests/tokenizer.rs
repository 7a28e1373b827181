use toktoktok::tokenizer::{
    pre_tokenize, pre_tokenize_into, pre_tokenize_with_special_tokens, PreToken, PreTokenizer,
};

fn gpt4() -> PreTokenizer {
    PreTokenizer::gpt4().unwrap()
}

fn texts(tokens: &[Vec<u8>]) -> Vec<String> {
    tokens.iter().map(|t| String::from_utf8(t.clone()).unwrap()).collect()
}

#[test]
fn test_basic_tokenization() {
    let pt = gpt4();
    let tokens = pre_tokenize(&pt, "Hello, world!");
    assert!(!tokens.is_empty());
}

#[test]
fn test_contractions() {
    let pt = gpt4();
    let tokens = pre_tokenize(&pt, "I'm don't won't");
    assert!(!tokens.is_empty());
}

#[test]
fn test_numbers() {
    let pt = gpt4();
    let tokens = pre_tokenize(&pt, "123 4567 89");
    assert!(!tokens.is_empty());
}

#[test]
fn pre_tokenize_splits_words_and_punctuation() {
    let pt = gpt4();
    assert_eq!(texts(&pre_tokenize(&pt, "Hello, world!")), vec!["Hello", ",", " world", "!"]);
}

#[test]
fn pre_tokenize_splits_contractions() {
    let pt = gpt4();
    assert_eq!(
        texts(&pre_tokenize(&pt, "I'm don't won't")),
        vec!["I", "'m", " don", "'t", " won", "'t"]
    );
}

#[test]
fn pre_tokenize_groups_digits_by_three() {
    let pt = gpt4();
    assert_eq!(texts(&pre_tokenize(&pt, "123 4567 89")), vec!["123", " ", "456", "7", " ", "89"]);
}

#[test]
fn pre_tokenize_empty_text() {
    let pt = gpt4();
    assert!(pre_tokenize(&pt, "").is_empty());
}

#[test]
fn pre_tokenize_into_replaces_old_contents() {
    let pt = gpt4();
    let mut out = vec![b"stale".to_vec(), b"data".to_vec()];
    pre_tokenize_into(&pt, "Hi there", &mut out);
    assert_eq!(texts(&out), vec!["Hi", " there"]);
}

#[test]
fn invalid_pattern_is_refused() {
    assert!(PreTokenizer::new("(unclosed").is_err());
    assert!(PreTokenizer::new("a+").is_ok());
}

fn describe(tokens: &[PreToken]) -> Vec<String> {
    tokens
        .iter()
        .map(|t| match t {
            PreToken::Regular(bytes) => String::from_utf8(bytes.clone()).unwrap(),
            PreToken::Special(_) => "<special>".to_string(),
        })
        .collect()
}

#[test]
fn special_tokens_are_cut_out() {
    let pt = gpt4();
    let specials = vec!["<|endoftext|>".to_string()];
    let tokens = pre_tokenize_with_special_tokens(&pt, "hello<|endoftext|> world", &specials);
    assert_eq!(describe(&tokens), vec!["hello", "<special>", " world"]);
}

#[test]
fn special_token_at_start_and_end() {
    let pt = gpt4();
    let specials = vec!["<|endoftext|>".to_string()];
    let tokens = pre_tokenize_with_special_tokens(&pt, "<|endoftext|>hi<|endoftext|>", &specials);
    assert_eq!(describe(&tokens), vec!["<special>", "hi", "<special>"]);
}

#[test]
fn earliest_special_token_wins() {
    let pt = gpt4();
    let specials = vec!["b".to_string(), "ab".to_string()];
    let tokens = pre_tokenize_with_special_tokens(&pt, "xab", &specials);
    assert_eq!(describe(&tokens), vec!["x", "<special>"]);
}

#[test]
fn first_listed_special_wins_a_tie() {
    let pt = gpt4();
    let specials = vec!["ab".to_string(), "abc".to_string()];
    let tokens = pre_tokenize_with_special_tokens(&pt, "abcd", &specials);
    assert_eq!(describe(&tokens), vec!["<special>", "cd"]);
}

#[test]
fn no_special_tokens_means_plain_pre_tokenization() {
    let pt = gpt4();
    let tokens = pre_tokenize_with_special_tokens(&pt, "Hello, world!", &[]);
    assert_eq!(describe(&tokens), vec!["Hello", ",", " world", "!"]);
}

#[test]
fn text_without_special_occurrence() {
    let pt = gpt4();
    let specials = vec!["<|im_end|>".to_string()];
    let tokens = pre_tokenize_with_special_tokens(&pt, "plain text", &specials);
    assert_eq!(describe(&tokens), vec!["plain", " text"]);
    assert!(pre_tokenize_with_special_tokens(&pt, "", &specials).is_empty());
}

#[test]
fn pre_token_clone_keeps_its_value() {
    let regular = PreToken::Regular(b"ab".to_vec());
    match regular.clone() {
        PreToken::Regular(bytes) => assert_eq!(bytes, b"ab".to_vec()),
        PreToken::Special(_) => panic!("a regular pre-token cloned as special"),
    }
    assert!(matches!(PreToken::Special(()).clone(), PreToken::Special(_)));
}
