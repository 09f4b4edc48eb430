use std::collections::HashSet;
use tokenizer::trigram::file_trigrams;
use tokenizer::{extract_query_trigrams, extract_trigrams, pack_trigram, unpack_trigram};

#[test]
fn test_pack_unpack_trigram() {
    let trigram = pack_trigram(b'a', b'b', b'c');
    let (a, b, c) = unpack_trigram(trigram);
    assert_eq!(a, b'a');
    assert_eq!(b, b'b');
    assert_eq!(c, b'c');
}

#[test]
fn test_extract_trigrams_simple() {
    let content = b"hello";
    let trigrams: Vec<_> = extract_trigrams(content);
    assert_eq!(trigrams.len(), 3);

    assert!(trigrams.contains(&pack_trigram(b'h', b'e', b'l')));
    assert!(trigrams.contains(&pack_trigram(b'e', b'l', b'l')));
    assert!(trigrams.contains(&pack_trigram(b'l', b'l', b'o')));
}

#[test]
fn test_extract_trigrams_case_insensitive() {
    let t1: Vec<_> = extract_trigrams(b"Hello");
    let t2: Vec<_> = extract_trigrams(b"HELLO");
    let t3: Vec<_> = extract_trigrams(b"hello");
    assert_eq!(t1, t2);
    assert_eq!(t2, t3);
}

#[test]
fn test_extract_trigrams_multiple_tokens() {
    let trigrams: Vec<_> = extract_trigrams(b"foo bar");
    assert_eq!(trigrams.len(), 2);
}

#[test]
fn test_extract_trigrams_preserves_underscore() {
    let trigrams: Vec<_> = extract_trigrams(b"run_game");
    assert_eq!(trigrams.len(), 6);
    assert!(trigrams.contains(&pack_trigram(b'u', b'n', b'_')));
    assert!(trigrams.contains(&pack_trigram(b'n', b'_', b'g')));
    assert!(trigrams.contains(&pack_trigram(b'_', b'g', b'a')));
}

#[test]
fn test_extract_trigrams_preserves_hyphen() {
    let trigrams: Vec<_> = extract_trigrams(b"my-var");
    assert_eq!(trigrams.len(), 4);
}

#[test]
fn test_extract_trigrams_short_tokens() {
    let trigrams: Vec<_> = extract_trigrams(b"ab cd ef");
    assert_eq!(trigrams.len(), 0);
}

#[test]
fn test_extract_trigrams_skips_short_tokens() {
    let trigrams: Vec<_> = extract_trigrams(b"a alfred b");
    assert_eq!(trigrams.len(), 4);
    assert!(trigrams.contains(&pack_trigram(b'a', b'l', b'f')));
    assert!(trigrams.contains(&pack_trigram(b'l', b'f', b'r')));
    assert!(trigrams.contains(&pack_trigram(b'f', b'r', b'e')));
    assert!(trigrams.contains(&pack_trigram(b'r', b'e', b'd')));
}

#[test]
fn test_extract_trigrams_mixed_short_long() {
    let trigrams: Vec<_> = extract_trigrams(b"a hello b world c");
    assert_eq!(trigrams.len(), 6);
}

#[test]
fn test_query_trigrams() {
    let query_trigrams = extract_query_trigrams("UserService");
    assert_eq!(query_trigrams.len(), 9);
    assert!(query_trigrams.contains(&pack_trigram(b'u', b's', b'e')));
    assert!(query_trigrams.contains(&pack_trigram(b's', b'e', b'r')));
}

#[test]
fn test_trigram_matching() {
    let content = b"def process_data(input):";
    let content_trigrams: HashSet<_> = extract_trigrams(content).into_iter().collect();

    let query_trigrams = extract_query_trigrams("process");
    let matches = query_trigrams
        .iter()
        .filter(|t| content_trigrams.contains(t))
        .count();
    assert_eq!(matches, query_trigrams.len());

    let upper_query_trigrams = extract_query_trigrams("PROCESS");
    assert_eq!(query_trigrams, upper_query_trigrams);
}

#[test]
fn test_partial_matching() {
    let content_trigrams: HashSet<_> = extract_trigrams(b"getUserById").into_iter().collect();
    let query_trigrams = extract_query_trigrams("user");
    let matches = query_trigrams
        .iter()
        .filter(|t| content_trigrams.contains(t))
        .count();
    assert!(matches > 0);
}

#[test]
fn test_empty_content() {
    let trigrams: Vec<_> = extract_trigrams(b"");
    assert!(trigrams.is_empty());
}

#[test]
fn trigram_test_only_delimiters() {
    let trigrams: Vec<_> = extract_trigrams(b"!@#$%^&*()");
    assert!(trigrams.is_empty());
}

#[test]
fn pack_places_first_byte_highest() {
    assert_eq!(pack_trigram(b'a', b'b', b'c'), 0x0061_6263);
    assert_eq!(pack_trigram(255, 0, 1), 0x00FF_0001);
    assert_eq!(unpack_trigram(0x1234_5678), (0x34, 0x56, 0x78));
}

#[test]
fn trigram_pack_round_trip_all_triples() {
    for a in 0..=255u8 {
        for b in 0..=255u8 {
            for c in 0..=255u8 {
                assert_eq!(unpack_trigram(pack_trigram(a, b, c)), (a, b, c));
            }
        }
    }
}

#[test]
fn trigrams_in_order_and_lowercased() {
    let t = extract_trigrams(b"AbCd");
    assert_eq!(t, vec![pack_trigram(b'a', b'b', b'c'), pack_trigram(b'b', b'c', b'd')]);
}

#[test]
fn file_trigrams_distinct_and_skip_binary() {
    let t = file_trigrams(b"aaaa aaa");
    assert_eq!(t, vec![pack_trigram(b'a', b'a', b'a')]);
    assert!(file_trigrams(b"abc\0def").is_empty());
}
