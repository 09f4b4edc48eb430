use tokenizer::persistence::{check_version, frame, has_magic, unframe, with_extension};
use tokenizer::{
    exact_file, exact_lower_file, paths_file, trigram_file, validate_index_match, IndexFile,
    IndexHeader, TokenizerError, FORMAT_VERSION,
};

#[test]
fn test_header_new() {
    let header = IndexHeader::new();
    assert_eq!(header.version, FORMAT_VERSION);
    assert!(header.created_at > 0);
}

#[test]
fn test_index_id_uniqueness() {
    let header1 = IndexHeader::new();
    let header2 = IndexHeader::new();
    assert_ne!(header1.index_id, header2.index_id);
}

#[test]
fn test_validate_index_match() {
    let header1 = IndexHeader::new();
    let header2 = IndexHeader {
        index_id: header1.index_id,
        ..IndexHeader::new()
    };
    let header3 = IndexHeader::new();

    assert!(validate_index_match(&header1, &header2).is_ok());
    assert!(validate_index_match(&header1, &header3).is_err());
}

#[test]
fn test_file_path_helpers() {
    let base = "/tmp/myindex.tkix";
    assert_eq!(paths_file(base), "/tmp/myindex.paths");
    assert_eq!(exact_file(base), "/tmp/myindex.exact");
    assert_eq!(trigram_file(base), "/tmp/myindex.tri");
}

#[test]
fn extension_replacement_cases() {
    assert_eq!(exact_lower_file("/tmp/myindex.tkix"), "/tmp/myindex.exacti");
    assert_eq!(with_extension("index", "paths"), "index.paths");
    assert_eq!(with_extension("a.b/c", "tri"), "a.b/c.tri");
    assert_eq!(with_extension("dir/.hidden", "tri"), "dir/.hidden.tri");
    assert_eq!(with_extension("x.tar.gz", "exact"), "x.tar.exact");
}

#[test]
fn cross_run_headers_mismatch() {
    let run1 = IndexHeader::new();
    let run2 = IndexHeader::new();
    let r = validate_index_match(&run1, &run2);
    assert!(matches!(r, Err(TokenizerError::IndexMismatch(_))));
}

#[test]
fn frame_then_unframe_gives_payload() {
    let payload = vec![1u8, 2, 3, 250];
    let bytes = frame(IndexFile::Paths, &payload);
    assert_eq!(&bytes[..4], b"TKIP");
    assert_eq!(unframe(IndexFile::Paths, &bytes).unwrap(), &payload[..]);
    assert!(has_magic(IndexFile::Paths, &bytes));
}

#[test]
fn magic_values() {
    assert_eq!(&IndexFile::Paths.magic(), b"TKIP");
    assert_eq!(&IndexFile::Exact.magic(), b"TKIE");
    assert_eq!(&IndexFile::ExactLower.magic(), b"TKIE");
    assert_eq!(&IndexFile::Trigram.magic(), b"TKIT");
    assert_eq!(&IndexFile::Legacy.magic(), b"TKIX");
}

#[test]
fn wrong_or_short_magic_is_rejected() {
    let bytes = frame(IndexFile::Exact, b"abc");
    assert!(matches!(
        unframe(IndexFile::Trigram, &bytes),
        Err(TokenizerError::InvalidIndexFormat(_))
    ));
    assert!(matches!(unframe(IndexFile::Paths, b"TKI"), Err(TokenizerError::InvalidIndexFormat(_))));
    assert!(unframe(IndexFile::ExactLower, &bytes).is_ok());
}

#[test]
fn version_check() {
    let mut h = IndexHeader::new();
    assert!(check_version(&h).is_ok());
    h.version = 2;
    assert!(matches!(check_version(&h), Err(TokenizerError::InvalidIndexFormat(_))));
}

#[test]
fn error_messages() {
    assert_eq!(TokenizerError::Io("x".to_string()).message(), "I/O error: x");
    assert_eq!(
        TokenizerError::MissingQueryMode.message(),
        "Missing query mode: must specify --exact or --fuzzy"
    );
}

#[test]
fn number_formatting() {
    assert_eq!(tokenizer::fmt_num(0), "0");
    assert_eq!(tokenizer::fmt_num(999), "999");
    assert_eq!(tokenizer::fmt_num(1000), "1,000");
    assert_eq!(tokenizer::fmt_num(1234567), "1,234,567");
    assert_eq!(tokenizer::fmt_num(u64::MAX), "18,446,744,073,709,551,615");
}

#[test]
fn every_error_kind_has_a_label() {
    let s = || "d".to_string();
    assert_eq!(TokenizerError::Serialization(s()).message(), "Serialization error: d");
    assert_eq!(TokenizerError::InvalidIndexFormat(s()).message(), "Invalid index format: d");
    assert_eq!(TokenizerError::WalkDir(s()).message(), "Directory walk error: d");
    assert_eq!(TokenizerError::IndexNotFound(s()).message(), "Index not found: d");
    assert_eq!(TokenizerError::InvalidPattern(s()).message(), "Invalid glob pattern: d");
    assert_eq!(TokenizerError::IndexMismatch(s()).message(), "Index files mismatch: d");
}
