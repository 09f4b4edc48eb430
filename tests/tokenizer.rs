use std::collections::HashSet;
use tokenizer::tokenizer::{file_exact_lower_tokens, file_exact_tokens, file_word_tokens, is_binary};
use tokenizer::{
    hash_token, tokenize, tokenize_exact, tokenize_exact_lower, tokenize_query_exact,
    tokenize_query_exact_lower,
};

#[test]
fn test_tokenize_basic() {
    let content = b"Hello, World! This is a test.";
    let tokens: Vec<_> = tokenize(content);

    // Should have: Hello, World, This, is, test (a is < 2 chars)
    assert_eq!(tokens.len(), 5);
}

#[test]
fn test_case_sensitive() {
    let hash1 = hash_token(b"Hello");
    let hash2 = hash_token(b"hello");
    let hash3 = hash_token(b"HELLO");

    assert_ne!(hash1, hash2);
    assert_ne!(hash2, hash3);
    assert_ne!(hash1, hash3);
}

#[test]
fn test_min_length_filter() {
    let content = b"a ab abc abcd";
    let tokens: Vec<_> = tokenize(content);
    assert_eq!(tokens.len(), 3);
}

#[test]
fn test_empty_input() {
    let content = b"";
    let tokens: Vec<_> = tokenize(content);
    assert!(tokens.is_empty());
}

#[test]
fn tokenizer_test_only_delimiters() {
    let content = b"!@#$%^&*()";
    let tokens: Vec<_> = tokenize(content);
    assert!(tokens.is_empty());
}

#[test]
fn test_numeric_tokens() {
    let content = b"test123 456 ab7cd";
    let tokens: Vec<_> = tokenize(content);
    assert_eq!(tokens.len(), 3);
}

#[test]
fn test_exact_tokenize_preserves_underscores() {
    let content = b"run_game start_server my_var";
    let tokens: Vec<_> = tokenize_exact(content);
    assert_eq!(tokens.len(), 3);

    let legacy_tokens: Vec<_> = tokenize(content);
    assert_eq!(legacy_tokens.len(), 6);
}

#[test]
fn test_exact_tokenize_preserves_hyphens() {
    let content = b"my-component user-service kebab-case";
    let tokens: Vec<_> = tokenize_exact(content);
    assert_eq!(tokens.len(), 3);

    let legacy_tokens: Vec<_> = tokenize(content);
    assert_eq!(legacy_tokens.len(), 6);
}

#[test]
fn test_exact_tokenize_mixed() {
    let content = b"func(my_var, other-arg)";
    let tokens: Vec<_> = tokenize_exact(content);
    assert_eq!(tokens.len(), 3);

    let query_tokens = tokenize_query_exact("my_var");
    assert_eq!(query_tokens.len(), 1);

    let content_hashes: HashSet<_> = tokens.into_iter().collect();
    assert!(content_hashes.contains(&query_tokens[0]));
}

#[test]
fn test_exact_tokenize_splits_on_dots() {
    let content = b"package.module.Class";
    let tokens: Vec<_> = tokenize_exact(content);
    assert_eq!(tokens.len(), 3);
}

#[test]
fn test_exact_tokenize_splits_on_operators() {
    let content = b"a+b=c*d/e";
    let tokens: Vec<_> = tokenize_exact(content);
    assert_eq!(tokens.len(), 0);
}

#[test]
fn test_exact_query_matches_content() {
    let content = b"def process_data(input_buffer):";
    let content_tokens: HashSet<_> = tokenize_exact(content).into_iter().collect();

    let query = tokenize_query_exact("process_data");
    assert_eq!(query.len(), 1);
    assert!(content_tokens.contains(&query[0]));

    let partial_query = tokenize_query_exact("process");
    assert!(!content_tokens.contains(&partial_query[0]));
}

#[test]
fn exact_tokens_are_hashes_in_order() {
    let tokens = tokenize_exact(b"alpha, beta_1 x gamma-2");
    assert_eq!(
        tokens,
        vec![hash_token(b"alpha"), hash_token(b"beta_1"), hash_token(b"gamma-2")]
    );
}

#[test]
fn unknown_bytes_split_identifier_tokens() {
    // 0xC3 is neither a token byte nor a listed delimiter.
    let tokens = tokenize_exact(b"ab\xC3cd");
    assert_eq!(tokens, vec![hash_token(b"ab"), hash_token(b"cd")]);
}

#[test]
fn word_tokens_split_on_underscore() {
    let tokens = tokenize(b"run_game");
    assert_eq!(tokens, vec![hash_token(b"run"), hash_token(b"game")]);
}

#[test]
fn lowered_tokens_hash_the_lowercase_bytes() {
    let tokens = tokenize_exact_lower(b"Run_Game HTTP");
    assert_eq!(tokens, vec![hash_token(b"run_game"), hash_token(b"http")]);
    assert_eq!(tokenize_query_exact_lower("RUN_game"), vec![hash_token(b"run_game")]);
}

#[test]
fn binary_detection_looks_at_first_8192_bytes() {
    let mut content = vec![b'a'; 10000];
    assert!(!is_binary(&content));
    content[9000] = 0;
    assert!(!is_binary(&content));
    content[8191] = 0;
    assert!(is_binary(&content));
    assert!(!is_binary(b""));
}

#[test]
fn file_tokens_are_distinct() {
    let tokens = file_exact_tokens(b"foo bar foo bar baz");
    assert_eq!(tokens, vec![hash_token(b"foo"), hash_token(b"bar"), hash_token(b"baz")]);
    let words = file_word_tokens(b"foo_bar foo");
    assert_eq!(words, vec![hash_token(b"foo"), hash_token(b"bar")]);
    let lower = file_exact_lower_tokens(b"Foo foo FOO");
    assert_eq!(lower, vec![hash_token(b"foo")]);
}

#[test]
fn binary_file_yields_no_tokens() {
    let content = b"hello\0world more_text";
    assert!(file_exact_tokens(content).is_empty());
    assert!(file_word_tokens(content).is_empty());
    assert!(file_exact_lower_tokens(content).is_empty());
}
