use std::path::Path;
use tokenizer::{glob_files, GlobOptions, IndexHeader, PathIndex, TokenizerError};

fn create_test_index() -> PathIndex {
    let mut index = PathIndex::new(IndexHeader::new(), "/test".to_string());
    index.register_file("/test/src/main.rs");
    index.register_file("/test/src/lib.rs");
    index.register_file("/test/src/utils.rs");
    index.register_file("/test/tests/test_main.rs");
    index.register_file("/test/tests/test_utils.rs");
    index.register_file("/test/config.json");
    index.register_file("/test/README.md");
    index.register_file("/test/Cargo.toml");
    index
}

#[test]
fn test_glob_extension() {
    let index = create_test_index();
    let options = GlobOptions::default();

    let result = glob_files(&index, "*.rs", &options).unwrap();
    assert_eq!(result.files.len(), 5);
    assert!(result.files.iter().all(|p| Path::new(p).extension().unwrap() == "rs"));
}

#[test]
fn test_glob_prefix() {
    let index = create_test_index();
    let options = GlobOptions::default();

    let result = glob_files(&index, "test_*", &options).unwrap();
    assert_eq!(result.files.len(), 2);
    assert!(result.files.iter().all(|p| Path::new(p)
        .file_name()
        .unwrap()
        .to_str()
        .unwrap()
        .starts_with("test_")));
}

#[test]
fn test_glob_contains() {
    let index = create_test_index();
    let options = GlobOptions::default();

    let result = glob_files(&index, "*config*", &options).unwrap();
    assert_eq!(result.files.len(), 1);
    assert_eq!(
        Path::new(&result.files[0]).file_name().unwrap().to_str().unwrap(),
        "config.json"
    );
}

#[test]
fn test_glob_exact() {
    let index = create_test_index();
    let options = GlobOptions::default();

    let result = glob_files(&index, "README.md", &options).unwrap();
    assert_eq!(result.files.len(), 1);
}

#[test]
fn test_glob_no_matches() {
    let index = create_test_index();
    let options = GlobOptions::default();

    let result = glob_files(&index, "*.xyz", &options).unwrap();
    assert!(result.files.is_empty());
}

#[test]
fn test_glob_limit() {
    let index = create_test_index();
    let options = GlobOptions { limit: Some(2) };

    let result = glob_files(&index, "*.rs", &options).unwrap();
    assert_eq!(result.files.len(), 2);
}

#[test]
fn test_glob_character_class() {
    let index = create_test_index();
    let options = GlobOptions::default();

    let result = glob_files(&index, "[lm]*.rs", &options).unwrap();
    assert_eq!(result.files.len(), 2);
}

#[test]
fn test_glob_single_char_wildcard() {
    let index = create_test_index();
    let options = GlobOptions::default();

    let result = glob_files(&index, "???.rs", &options).unwrap();
    assert_eq!(result.files.len(), 1);
}

#[test]
fn test_invalid_pattern() {
    let index = create_test_index();
    let options = GlobOptions::default();

    let result = glob_files(&index, "[invalid", &options);
    assert!(result.is_err());
}

#[test]
fn test_result_metadata() {
    let index = create_test_index();
    let options = GlobOptions::default();

    let result = glob_files(&index, "*.rs", &options).unwrap();
    assert_eq!(result.pattern, "*.rs");
    assert_eq!(result.files_scanned, 8);
}

#[test]
fn glob_is_case_sensitive_and_ordered() {
    let index = create_test_index();
    let result = glob_files(&index, "*.RS", &GlobOptions::default()).unwrap();
    assert!(result.files.is_empty());
    let result = glob_files(&index, "*.rs", &GlobOptions { limit: Some(2) }).unwrap();
    assert_eq!(
        result.files,
        vec!["/test/src/main.rs".to_string(), "/test/src/lib.rs".to_string()]
    );
}

#[test]
fn invalid_pattern_error_kind() {
    let index = create_test_index();
    let result = glob_files(&index, "a[", &GlobOptions::default());
    assert!(matches!(result, Err(TokenizerError::InvalidPattern(_))));
}
