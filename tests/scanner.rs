use tokenizer::scanner::{accepts_file, is_excluded_name, process_content, should_exclude, unreadable_file};
use tokenizer::{hash_token, pack_trigram, IndexBuilder, IndexHeader, ScanConfig};

#[test]
fn test_should_exclude() {
    let patterns = vec![".git".to_string(), "node_modules".to_string()];

    assert!(should_exclude("/project/.git/config", &patterns));
    assert!(should_exclude("/project/node_modules/pkg", &patterns));
    assert!(!should_exclude("/project/src/main.rs", &patterns));
}

#[test]
fn test_default_config() {
    let config = ScanConfig::default();
    assert!(config.extensions.is_empty());
    assert!(!config.exclude_patterns.is_empty());
    assert!(config.exclude_patterns.contains(&".git".to_string()));
}

#[test]
fn default_config_values() {
    let config = ScanConfig::default();
    assert_eq!(config.max_file_size, 10 * 1024 * 1024);
    assert_eq!(config.batch_size, 1000);
    assert_eq!(config.exclude_patterns.len(), 5);
}

#[test]
fn excluded_names() {
    let patterns = vec!["target".to_string()];
    assert!(is_excluded_name("target", &patterns));
    assert!(!is_excluded_name("targets", &patterns));
    assert!(!should_exclude("/a/my_target/x", &patterns));
    assert!(should_exclude("target", &patterns));
}

#[test]
fn file_filter_by_extension_and_size() {
    let mut config = ScanConfig::default();
    assert!(accepts_file("anything", 5, &config));
    config.extensions = vec!["rs".to_string(), "py".to_string()];
    assert!(accepts_file("main.rs", 5, &config));
    assert!(!accepts_file("main.c", 5, &config));
    assert!(!accepts_file(".rs", 5, &config));
    assert!(!accepts_file("Makefile", 5, &config));
    config.max_file_size = 4;
    assert!(!accepts_file("main.rs", 5, &config));
}

#[test]
fn records_hold_distinct_keys() {
    let rec = process_content(7, b"Foo foo bar");
    assert_eq!(rec.file_id, 7);
    assert_eq!(rec.exact_tokens, vec![hash_token(b"Foo"), hash_token(b"foo"), hash_token(b"bar")]);
    assert_eq!(rec.exact_lower_tokens, vec![hash_token(b"foo"), hash_token(b"bar")]);
    assert_eq!(rec.trigrams, vec![pack_trigram(b'f', b'o', b'o'), pack_trigram(b'b', b'a', b'r')]);
}

#[test]
fn builder_shares_header() {
    let header = IndexHeader::new();
    let mut builder = IndexBuilder::new(header, "/r".to_string());
    let id = builder.register("/r/a.txt");
    builder.merge(&process_content(id, b"hello"));
    let id2 = builder.register("/r/b.txt");
    builder.merge(&unreadable_file(id2));
    let (paths, exact, lower, tri) = builder.finish();
    assert_eq!(paths.header.index_id, header.index_id);
    assert_eq!(exact.header.index_id, header.index_id);
    assert_eq!(lower.header.index_id, header.index_id);
    assert_eq!(tri.header.index_id, header.index_id);
    assert_eq!(paths.file_count(), 2);
    assert_eq!(exact.token_count(), 1);
    assert_eq!(tri.trigram_count(), 3);
}
