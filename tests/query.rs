use roaring::RoaringBitmap;
use tokenizer::query::{intersect_bitmaps, resolve_file_ids, union_bitmaps};
use tokenizer::{
    hash_token, query, query_exact, query_exact_lower, ExactTokenIndex, IndexHeader, PathIndex,
    QueryOptions, TokenIndex,
};

#[test]
fn test_empty_query() {
    let index = TokenIndex::new("/test".to_string());
    let result = query(&index, "");

    assert!(result.files.is_empty());
    assert_eq!(result.query_token_count, 0);
}

#[test]
fn test_short_tokens_filtered() {
    let index = TokenIndex::new("/test".to_string());
    let result = query(&index, "a b");

    assert_eq!(result.query_token_count, 0);
}

#[test]
fn test_query_no_matches() {
    let index = TokenIndex::new("/test".to_string());
    let result = query(&index, "nonexistent token here");

    assert!(result.files.is_empty());
    assert_eq!(result.query_token_count, 3);
    assert_eq!(result.matched_token_count, 0);
}

#[test]
fn test_intersect_empty_bitmaps() {
    let bitmaps: Vec<&RoaringBitmap> = vec![];
    let result = intersect_bitmaps(&bitmaps);
    assert!(result.is_empty());
}

#[test]
fn test_intersect_single_bitmap() {
    let mut b = RoaringBitmap::new();
    b.insert(1);
    b.insert(2);
    b.insert(3);

    let bitmaps = vec![&b];
    let result = intersect_bitmaps(&bitmaps);

    assert_eq!(result.len(), 3);
}

#[test]
fn test_intersect_multiple_bitmaps() {
    let mut b1 = RoaringBitmap::new();
    b1.insert(1);
    b1.insert(2);
    b1.insert(3);

    let mut b2 = RoaringBitmap::new();
    b2.insert(2);
    b2.insert(3);
    b2.insert(4);

    let mut b3 = RoaringBitmap::new();
    b3.insert(3);
    b3.insert(4);
    b3.insert(5);

    let bitmaps = vec![&b1, &b2, &b3];
    let result = intersect_bitmaps(&bitmaps);

    assert_eq!(result.len(), 1);
    assert!(result.contains(3));
}

#[test]
fn test_union_bitmaps() {
    let mut b1 = RoaringBitmap::new();
    b1.insert(1);
    b1.insert(2);

    let mut b2 = RoaringBitmap::new();
    b2.insert(3);
    b2.insert(4);

    let bitmaps = vec![&b1, &b2];
    let result = union_bitmaps(&bitmaps);

    assert_eq!(result.len(), 4);
}

fn create_test_path_index() -> PathIndex {
    let header = IndexHeader::new();
    let mut path_index = PathIndex::new(header, "/project".to_string());

    path_index.register_file("/project/src/main.rs"); // 0
    path_index.register_file("/project/src/lib.rs"); // 1
    path_index.register_file("/project/test/unit.rs"); // 2
    path_index.register_file("/project/src/util.py"); // 3
    path_index.register_file("/project/docs/readme.md"); // 4
    path_index.register_file("/project/src/test_helper.h"); // 5

    path_index
}

fn all_six() -> RoaringBitmap {
    let mut bitmap = RoaringBitmap::new();
    for i in 0..6 {
        bitmap.insert(i);
    }
    bitmap
}

#[test]
fn test_resolve_file_ids_no_filter() {
    let path_index = create_test_path_index();
    let mut bitmap = RoaringBitmap::new();
    bitmap.insert(0);
    bitmap.insert(1);
    bitmap.insert(2);

    let options = QueryOptions::default();
    let result = resolve_file_ids(&path_index, &bitmap, &options);

    assert_eq!(result.len(), 3);
}

#[test]
fn test_resolve_file_ids_path_contains() {
    let path_index = create_test_path_index();
    let bitmap = all_six();
    let options = QueryOptions {
        path_contains: Some("src".to_string()),
        ..Default::default()
    };
    let result = resolve_file_ids(&path_index, &bitmap, &options);

    assert_eq!(result.len(), 4);
    assert!(result.iter().all(|p| p.contains("src")));
}

#[test]
fn test_resolve_file_ids_path_contains_case_insensitive() {
    let path_index = create_test_path_index();
    let bitmap = all_six();
    let options = QueryOptions {
        path_contains: Some("SRC".to_string()),
        ..Default::default()
    };
    let result = resolve_file_ids(&path_index, &bitmap, &options);

    assert_eq!(result.len(), 4);
}

#[test]
fn test_resolve_file_ids_glob_patterns() {
    let path_index = create_test_path_index();
    let bitmap = all_six();
    let options = QueryOptions {
        glob_patterns: Some(vec!["*.rs".to_string()]),
        ..Default::default()
    };
    let result = resolve_file_ids(&path_index, &bitmap, &options);

    assert_eq!(result.len(), 3);
    assert!(result
        .iter()
        .all(|p| std::path::Path::new(p).extension().map(|e| e == "rs").unwrap_or(false)));
}

#[test]
fn test_resolve_file_ids_glob_multiple_patterns() {
    let path_index = create_test_path_index();
    let bitmap = all_six();
    let options = QueryOptions {
        glob_patterns: Some(vec!["*.rs".to_string(), "*.h".to_string()]),
        ..Default::default()
    };
    let result = resolve_file_ids(&path_index, &bitmap, &options);

    assert_eq!(result.len(), 4);
}

#[test]
fn test_resolve_file_ids_glob_case_insensitive() {
    let path_index = create_test_path_index();
    let bitmap = all_six();
    let options = QueryOptions {
        glob_patterns: Some(vec!["*.RS".to_string()]),
        ..Default::default()
    };
    let result = resolve_file_ids(&path_index, &bitmap, &options);

    assert_eq!(result.len(), 3);
}

#[test]
fn test_resolve_file_ids_exclude() {
    let path_index = create_test_path_index();
    let bitmap = all_six();
    let options = QueryOptions {
        exclude: Some("test".to_string()),
        ..Default::default()
    };
    let result = resolve_file_ids(&path_index, &bitmap, &options);

    assert_eq!(result.len(), 4);
    assert!(result.iter().all(|p| !p.to_lowercase().contains("test")));
}

#[test]
fn test_resolve_file_ids_exclude_case_insensitive() {
    let path_index = create_test_path_index();
    let bitmap = all_six();
    let options = QueryOptions {
        exclude: Some("TEST".to_string()),
        ..Default::default()
    };
    let result = resolve_file_ids(&path_index, &bitmap, &options);

    assert_eq!(result.len(), 4);
}

#[test]
fn test_resolve_file_ids_combined_filters() {
    let path_index = create_test_path_index();
    let bitmap = all_six();
    let options = QueryOptions {
        path_contains: Some("src".to_string()),
        glob_patterns: Some(vec!["*.rs".to_string()]),
        exclude: Some("test".to_string()),
        ..Default::default()
    };
    let result = resolve_file_ids(&path_index, &bitmap, &options);

    assert_eq!(result.len(), 2);
    assert!(result.iter().any(|p| p.contains("main.rs")));
    assert!(result.iter().any(|p| p.contains("lib.rs")));
}

#[test]
fn test_resolve_file_ids_with_limit() {
    let path_index = create_test_path_index();
    let bitmap = all_six();
    let options = QueryOptions {
        limit: Some(2),
        ..Default::default()
    };
    let result = resolve_file_ids(&path_index, &bitmap, &options);

    assert_eq!(result.len(), 2);
}

fn create_test_exact_index_with_tokens() -> (PathIndex, ExactTokenIndex) {
    let header = IndexHeader::new();
    let mut path_index = PathIndex::new(header, "/project".to_string());

    path_index.register_file("/project/file_a.rs"); // 0
    path_index.register_file("/project/file_b.rs"); // 1
    path_index.register_file("/project/file_ab.rs"); // 2
    path_index.register_file("/project/file_c.rs"); // 3

    let mut exact_index = ExactTokenIndex::new(header);

    let hash_alpha = hash_token(b"alpha");
    let mut bitmap_alpha = RoaringBitmap::new();
    bitmap_alpha.insert(0);
    bitmap_alpha.insert(2);
    exact_index.token_map.insert(hash_alpha, bitmap_alpha);

    let hash_beta = hash_token(b"beta");
    let mut bitmap_beta = RoaringBitmap::new();
    bitmap_beta.insert(1);
    bitmap_beta.insert(2);
    exact_index.token_map.insert(hash_beta, bitmap_beta);

    (path_index, exact_index)
}

#[test]
fn test_query_exact_and_mode() {
    let (path_index, exact_index) = create_test_exact_index_with_tokens();
    let options = QueryOptions {
        match_all: true,
        ..Default::default()
    };
    let result = query_exact(&path_index, &exact_index, "alpha beta", &options);

    assert_eq!(result.files.len(), 1);
    assert!(result.files[0].contains("file_ab.rs"));
}

#[test]
fn test_query_exact_or_mode() {
    let (path_index, exact_index) = create_test_exact_index_with_tokens();
    let options = QueryOptions {
        match_all: false,
        ..Default::default()
    };
    let result = query_exact(&path_index, &exact_index, "alpha beta", &options);

    assert_eq!(result.files.len(), 3);
    assert!(result.files.iter().any(|p| p.contains("file_a.rs")));
    assert!(result.files.iter().any(|p| p.contains("file_b.rs")));
    assert!(result.files.iter().any(|p| p.contains("file_ab.rs")));
}

#[test]
fn test_query_exact_or_mode_single_token() {
    let (path_index, exact_index) = create_test_exact_index_with_tokens();
    let and_options = QueryOptions {
        match_all: true,
        ..Default::default()
    };
    let or_options = QueryOptions {
        match_all: false,
        ..Default::default()
    };

    let and_result = query_exact(&path_index, &exact_index, "alpha", &and_options);
    let or_result = query_exact(&path_index, &exact_index, "alpha", &or_options);

    assert_eq!(and_result.files.len(), 2);
    assert_eq!(or_result.files.len(), 2);
}

#[test]
fn results_come_in_file_id_order() {
    let (path_index, exact_index) = create_test_exact_index_with_tokens();
    let options = QueryOptions::default();
    let result = query_exact(&path_index, &exact_index, "beta alpha", &options);
    assert_eq!(
        result.files,
        vec![
            "/project/file_a.rs".to_string(),
            "/project/file_b.rs".to_string(),
            "/project/file_ab.rs".to_string()
        ]
    );
    assert_eq!(result.query_token_count, 2);
    assert_eq!(result.matched_token_count, 2);
}

#[test]
fn unmatched_keys_counted_but_not_matched() {
    let (path_index, exact_index) = create_test_exact_index_with_tokens();
    let options = QueryOptions {
        match_all: true,
        ..Default::default()
    };
    let result = query_exact(&path_index, &exact_index, "alpha gamma", &options);
    assert_eq!(result.query_token_count, 2);
    assert_eq!(result.matched_token_count, 1);
    assert_eq!(result.files.len(), 2);
}

#[test]
fn ids_beyond_registry_are_skipped() {
    let path_index = create_test_path_index();
    let mut bitmap = RoaringBitmap::new();
    bitmap.insert(1);
    bitmap.insert(100);
    let result = resolve_file_ids(&path_index, &bitmap, &QueryOptions::default());
    assert_eq!(result, vec!["/project/src/lib.rs".to_string()]);
}

#[test]
fn invalid_glob_patterns_are_dropped() {
    let path_index = create_test_path_index();
    let bitmap = all_six();
    let options = QueryOptions {
        glob_patterns: Some(vec!["[bad".to_string(), "*.md".to_string()]),
        ..Default::default()
    };
    let result = resolve_file_ids(&path_index, &bitmap, &options);
    assert_eq!(result, vec!["/project/docs/readme.md".to_string()]);
}

#[test]
fn intersection_ignores_order() {
    let mut small = RoaringBitmap::new();
    small.insert(7);
    let mut big = RoaringBitmap::new();
    for i in 0..100 {
        big.insert(i);
    }
    let a = intersect_bitmaps(&vec![&big, &small]);
    let b = intersect_bitmaps(&vec![&small, &big]);
    assert_eq!(a, b);
    assert_eq!(a.iter().collect::<Vec<_>>(), vec![7]);
}

#[test]
fn lowered_query_finds_mixed_case_tokens() {
    let header = IndexHeader::new();
    let mut path_index = PathIndex::new(header, "/p".to_string());
    path_index.register_file("/p/a.rs");
    let mut lower = ExactTokenIndex::new(header);
    for h in tokenizer::tokenize_exact_lower(b"fn RunGame()") {
        lower.add_token(h, 0);
    }
    let result = query_exact_lower(&path_index, &lower, "rungame", &QueryOptions::default());
    assert_eq!(result.files, vec!["/p/a.rs".to_string()]);
}
