//! File-content search over a persistent inverted index.
//!
//! Three scanners define the vocabulary (word tokens, identifier-preserving
//! tokens and lowercased trigrams), a path registry hands out dense file ids,
//! posting maps hold a bitmap of file ids per key, and the query planner
//! composes those bitmaps and filters the resulting paths.

pub mod tokenizer;
pub mod trigram;
pub mod bitmap;
pub mod text;
pub mod error;
pub mod index;
pub mod select;
pub mod glob;
pub mod query;
pub mod persistence;
pub mod scanner;

pub use error::{Result, TokenizerError};
pub use glob::{glob_files, GlobOptions, GlobResult};
pub use index::{
    ExactTokenIndex, IndexHeader, IndexMetadata, PathIndex, PathRegistry, TokenIndex,
    TrigramIndex, FORMAT_VERSION,
};
pub use persistence::{
    exact_file, exact_lower_file, paths_file, trigram_file, validate_index_match, IndexFile,
};
pub use query::{
    query, query_exact, query_exact_lower, query_fuzzy, query_with_options, QueryOptions,
    QueryResult,
};
pub use scanner::{FileTokens, IndexBuilder, ScanConfig};
pub use tokenizer::{
    hash_token, tokenize, tokenize_exact, tokenize_exact_lower, tokenize_query,
    tokenize_query_exact, tokenize_query_exact_lower, MIN_TOKEN_LENGTH,
};
pub use trigram::{
    extract_query_trigrams, extract_trigrams, pack_trigram, unpack_trigram,
    MIN_TRIGRAM_TOKEN_LENGTH,
};

use text::push_char;
use vstd::prelude::*;

verus! {

/// The character of a decimal digit.
pub open spec fn digit_char(d: nat) -> char {
    if d == 0 { '0' } else if d == 1 { '1' } else if d == 2 { '2' } else if d == 3 { '3' }
    else if d == 4 { '4' } else if d == 5 { '5' } else if d == 6 { '6' } else if d == 7 { '7' }
    else if d == 8 { '8' } else { '9' }
}

/// The decimal digits of `n`, most significant first.
pub open spec fn decimal(n: nat) -> Seq<char>
    decreases n,
{
    if n < 10 {
        seq![digit_char(n)]
    } else {
        decimal(n / 10).push(digit_char(n % 10))
    }
}

/// The first `i` digits of `d`, each preceded by a comma when it is not the
/// first digit and a multiple of three digits follow it.
pub open spec fn grouped_prefix(d: Seq<char>, i: int) -> Seq<char>
    decreases i,
{
    if i <= 0 {
        seq![]
    } else {
        grouped_prefix(d, i - 1) + (if i - 1 > 0 && (d.len() - (i - 1)) % 3 == 0 {
            seq![',']
        } else {
            seq![]
        }) + seq![d[i - 1]]
    }
}

/// `d` with a comma between every group of three digits, counted from the right.
pub open spec fn grouped(d: Seq<char>) -> Seq<char> {
    grouped_prefix(d, d.len() as int)
}

fn digit(d: u64) -> (r: char)
    requires
        d < 10,
    ensures
        r == digit_char(d as nat),
{
    match d {
        0 => '0',
        1 => '1',
        2 => '2',
        3 => '3',
        4 => '4',
        5 => '5',
        6 => '6',
        7 => '7',
        8 => '8',
        _ => '9',
    }
}

/// Format a number with thousands separators: 1234567 becomes "1,234,567".
pub fn fmt_num(n: u64) -> (r: String)
    ensures
        r@ == grouped(decimal(n as nat)),
{
    let mut digits: Vec<char> = Vec::new();
    let mut m: u64 = n;
    digits.insert(0, digit(m % 10));
    while m >= 10
        invariant
            decimal(n as nat) == decimal(m as nat) + digits@.drop_first(),
            digits@.len() >= 1,
            digits@[0] == digit_char((m % 10) as nat),
        decreases m,
    {
        proof {
            assert(decimal(m as nat) == decimal((m / 10) as nat).push(digit_char((m % 10) as nat)));
            assert(decimal(m as nat) + digits@.drop_first() =~= decimal((m / 10) as nat) + digits@);
        }
        m = m / 10;
        let ghost before = digits@;
        digits.insert(0, digit(m % 10));
        assert(digits@.drop_first() =~= before);
    }
    assert(decimal(m as nat) =~= seq![digits@[0]]);
    assert(decimal(n as nat) =~= digits@);
    let mut out = String::new();
    let len = digits.len();
    let mut i: usize = 0;
    while i < len
        invariant
            len == digits@.len(),
            i <= len,
            out@ == grouped_prefix(digits@, i as int),
        decreases len - i,
    {
        if i > 0 && (len - i) % 3 == 0 {
            push_char(&mut out, ',');
        }
        push_char(&mut out, digits[i]);
        i += 1;
        assert(out@ =~= grouped_prefix(digits@, i as int));
    }
    out
}

} // verus!
