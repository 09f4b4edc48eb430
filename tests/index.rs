use tokenizer::{ExactTokenIndex, IndexHeader, PathIndex, TokenIndex, TrigramIndex};

#[test]
fn test_path_index_new() {
    let header = IndexHeader::new();
    let index = PathIndex::new(header, "/test".to_string());
    assert_eq!(index.file_count(), 0);
    assert_eq!(index.directory_count(), 0);
}

#[test]
fn test_path_index_register_file() {
    let header = IndexHeader::new();
    let mut index = PathIndex::new(header, "/test".to_string());
    let id1 = index.register_file("/test/file1.txt");
    let id2 = index.register_file("/test/file2.txt");

    assert_eq!(id1, 0);
    assert_eq!(id2, 1);
    assert_eq!(index.file_count(), 2);
}

#[test]
fn test_path_index_directory_deduplication() {
    let header = IndexHeader::new();
    let mut index = PathIndex::new(header, "/test".to_string());

    index.register_file("/test/src/file1.txt");
    index.register_file("/test/src/file2.txt");
    index.register_file("/test/other/file3.txt");

    assert_eq!(index.file_count(), 3);
    assert_eq!(index.directory_count(), 2);
}

#[test]
fn test_exact_token_index() {
    let header = IndexHeader::new();
    let mut index = ExactTokenIndex::new(header);

    index.add_token(12345, 0);
    index.add_token(12345, 1);
    index.add_token(67890, 2);

    assert_eq!(index.token_count(), 2);

    let bitmap = index.get_bitmap(12345).unwrap();
    assert!(bitmap.contains(0));
    assert!(bitmap.contains(1));
    assert!(!bitmap.contains(2));
}

#[test]
fn test_trigram_index() {
    let header = IndexHeader::new();
    let mut index = TrigramIndex::new(header);

    let abc = 0x00616263;
    index.add_trigram(abc, 0);
    index.add_trigram(abc, 1);

    assert_eq!(index.trigram_count(), 1);

    let bitmap = index.get_bitmap(abc).unwrap();
    assert!(bitmap.contains(0));
    assert!(bitmap.contains(1));
}

#[test]
fn test_new_index() {
    let index = TokenIndex::new("/test".to_string());
    assert_eq!(index.file_count(), 0);
    assert_eq!(index.token_count(), 0);
    assert_eq!(index.metadata().version, TokenIndex::CURRENT_VERSION);
}

#[test]
fn test_register_file() {
    let mut index = TokenIndex::new("/test".to_string());
    let id1 = index.register_file("/test/file1.txt");
    let id2 = index.register_file("/test/file2.txt");

    assert_eq!(id1, 0);
    assert_eq!(id2, 1);
    assert_eq!(index.file_count(), 2);
}

#[test]
fn test_add_and_get_token() {
    let mut index = TokenIndex::new("/test".to_string());
    let file_id = index.register_file("/test/file.txt");

    index.add_token(12345, file_id);

    let bitmap = index.get_bitmap(12345).unwrap();
    assert!(bitmap.contains(file_id));
    assert!(!bitmap.contains(999));
}

#[test]
fn test_get_file_path() {
    let mut index = TokenIndex::new("/test".to_string());
    let path = "/test/file.txt".to_string();
    let id = index.register_file(&path);

    assert_eq!(index.get_file_path(id), Some(path));
    assert_eq!(index.get_file_path(999), None);
}

#[test]
fn test_finalize() {
    let mut index = TokenIndex::new("/test".to_string());
    let file_id = index.register_file("/test/file.txt");
    index.add_token(111, file_id);
    index.add_token(222, file_id);
    index.add_token(333, file_id);

    index.finalize();

    assert_eq!(index.metadata().token_count, 3);
}

#[test]
fn test_directory_deduplication() {
    let mut index = TokenIndex::new("/test".to_string());

    index.register_file("/test/src/file1.txt");
    index.register_file("/test/src/file2.txt");
    index.register_file("/test/src/file3.txt");
    index.register_file("/test/other/file4.txt");

    assert_eq!(index.file_count(), 4);
    assert_eq!(index.directory_count(), 2);

    assert_eq!(index.get_file_path(0), Some("/test/src/file1.txt".to_string()));
    assert_eq!(index.get_file_path(3), Some("/test/other/file4.txt".to_string()));
}

#[test]
fn registered_paths_read_back_unchanged() {
    let mut index = PathIndex::new(IndexHeader::new(), String::new());
    let paths = ["/a/b/c.txt", "rel/x.rs", "plain", "/root", "a//b", "dir/", "", "/"];
    for (i, p) in paths.iter().enumerate() {
        let id = index.register_file(p);
        assert_eq!(id as usize, i);
        assert_eq!(index.get_file_path(id), Some(p.to_string()));
    }
    assert_eq!(index.get_file_path(paths.len() as u32), None);
}

#[test]
fn directory_count_never_exceeds_file_count() {
    let mut distinct = PathIndex::new(IndexHeader::new(), String::new());
    distinct.register_file("/a/x");
    distinct.register_file("/b/x");
    distinct.register_file("/c/x");
    assert_eq!(distinct.directory_count(), distinct.file_count());

    let mut shared = PathIndex::new(IndexHeader::new(), String::new());
    shared.register_file("/a/x");
    shared.register_file("/a/y");
    shared.register_file("/b/z");
    assert_eq!(shared.file_count(), 3);
    assert_eq!(shared.directory_count(), 2);
}

#[test]
fn directories_keep_their_separator() {
    let mut index = PathIndex::new(IndexHeader::new(), String::new());
    index.register_file("/test/src/main.rs");
    index.register_file("top.rs");
    assert_eq!(index.directories(), &vec!["/test/src/".to_string(), String::new()]);
    assert_eq!(
        index.files(),
        &vec![(0u32, "main.rs".to_string()), (1u32, "top.rs".to_string())]
    );
    assert_eq!(index.get_file_name(0), Some(&"main.rs".to_string()));
}

#[test]
fn iterators_list_every_file() {
    let mut index = PathIndex::new(IndexHeader::new(), String::new());
    index.register_file("/p/a.rs");
    index.register_file("/q/b.rs");
    assert_eq!(
        index.iter_files(),
        vec![(0, "/p/a.rs".to_string()), (1, "/q/b.rs".to_string())]
    );
    assert_eq!(
        index.iter_filenames(),
        vec![(0, "a.rs".to_string()), (1, "b.rs".to_string())]
    );
}

#[test]
fn path_index_from_parts_rebuilds_paths() {
    let header = IndexHeader::new();
    let mut index = PathIndex::new(header, "/r".to_string());
    index.register_file("/r/a/x.txt");
    index.register_file("/r/b/y.txt");
    index.register_file("/r/a/z.txt");
    let rebuilt = PathIndex::from_parts(
        header,
        "/r".to_string(),
        index.directories(),
        index.files(),
    )
    .unwrap();
    assert_eq!(rebuilt.iter_files(), index.iter_files());
    assert_eq!(rebuilt.directory_count(), 2);
    assert_eq!(rebuilt.header, header);
}

#[test]
fn path_index_from_parts_rejects_bad_input() {
    let mut header = IndexHeader::new();
    let dirs = vec!["/a/".to_string()];
    let bad_files = vec![(3u32, "x".to_string())];
    let err = PathIndex::from_parts(header, String::new(), &dirs, &bad_files);
    assert!(matches!(err, Err(tokenizer::TokenizerError::Serialization(_))));
    header.version = 2;
    let good_files = vec![(0u32, "x".to_string())];
    let err = PathIndex::from_parts(header, String::new(), &dirs, &good_files);
    assert!(matches!(err, Err(tokenizer::TokenizerError::InvalidIndexFormat(_))));
}

#[test]
fn posting_store_from_parts_checks_version() {
    let mut header = IndexHeader::new();
    let ok = ExactTokenIndex::from_parts(header, std::collections::HashMap::new());
    assert!(ok.is_ok());
    header.version = 4;
    let err = TrigramIndex::from_parts(header, std::collections::HashMap::new());
    assert!(matches!(err, Err(tokenizer::TokenizerError::InvalidIndexFormat(_))));
}

#[test]
fn token_index_from_parts() {
    let mut index = TokenIndex::new("/r".to_string());
    index.register_file("/r/a.txt");
    index.add_token(5, 0);
    index.finalize();
    let rebuilt = TokenIndex::from_parts(
        index.token_map.clone(),
        index.registry.directories(),
        index.registry.files(),
        index.metadata().clone(),
    )
    .unwrap();
    assert_eq!(rebuilt.get_file_path(0), Some("/r/a.txt".to_string()));
    assert!(rebuilt.get_bitmap(5).unwrap().contains(0));

    let mut old = index.metadata().clone();
    old.version = 1;
    let err = TokenIndex::from_parts(
        index.token_map.clone(),
        index.registry.directories(),
        index.registry.files(),
        old,
    );
    assert!(matches!(err, Err(tokenizer::TokenizerError::InvalidIndexFormat(_))));
}
