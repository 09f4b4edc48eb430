//! The on-disk layout: file names derived from a base path, the 4-byte magic
//! that starts each file, and the checks made on load.

use crate::error::TokenizerError;
use crate::index::{IndexHeader, FORMAT_VERSION};
use crate::text::{
    dir_part, lemma_prefix_through_join, name_part, prefix_through,
    rsplit_once_char, split_path,
};
use vstd::prelude::*;
use vstd::string::StringExecFns;

verus! {

/// The files of an index.
#[derive(Debug, Clone, Copy, PartialEq, Eq)]
pub enum IndexFile {
    /// The path registry, `.paths`.
    Paths,
    /// Case-sensitive token postings, `.exact`.
    Exact,
    /// Lowercased token postings, `.exacti`.
    ExactLower,
    /// Trigram postings, `.tri`.
    Trigram,
    /// The older single-file index.
    Legacy,
}

/// The magic bytes that start a file of each kind.
pub open spec fn magic_of(kind: IndexFile) -> Seq<u8> {
    match kind {
        IndexFile::Paths => seq![84u8, 75, 73, 80],
        IndexFile::Exact => seq![84u8, 75, 73, 69],
        IndexFile::ExactLower => seq![84u8, 75, 73, 69],
        IndexFile::Trigram => seq![84u8, 75, 73, 84],
        IndexFile::Legacy => seq![84u8, 75, 73, 88],
    }
}

impl IndexFile {
    /// The magic bytes: `TKIP`, `TKIE` (both exact stores), `TKIT` or `TKIX`.
    pub fn magic(&self) -> (r: [u8; 4])
        ensures
            r@ == magic_of(*self),
    {
        let r: [u8; 4] = match self {
            IndexFile::Paths => [84, 75, 73, 80],
            IndexFile::Exact => [84, 75, 73, 69],
            IndexFile::ExactLower => [84, 75, 73, 69],
            IndexFile::Trigram => [84, 75, 73, 84],
            IndexFile::Legacy => [84, 75, 73, 88],
        };
        assert(r@ =~= magic_of(*self));
        r
    }
}

/// The bytes of a file: its magic, then the payload.
pub open spec fn framed(kind: IndexFile, payload: Seq<u8>) -> Seq<u8> {
    magic_of(kind) + payload
}

/// The payload of a file of kind `kind`, or `None` when it does not start with that magic.
pub open spec fn unframed(kind: IndexFile, bytes: Seq<u8>) -> Option<Seq<u8>> {
    if bytes.len() >= 4 && bytes.take(4) == magic_of(kind) {
        Some(bytes.skip(4))
    } else {
        None
    }
}

/// Prefix the payload with the magic of its kind.
pub fn frame(kind: IndexFile, payload: &[u8]) -> (r: Vec<u8>)
    ensures
        r@ == framed(kind, payload@),
{
    let magic = kind.magic();
    let mut out: Vec<u8> = Vec::with_capacity(4);
    out.push(magic[0]);
    out.push(magic[1]);
    out.push(magic[2]);
    out.push(magic[3]);
    let mut i: usize = 0;
    while i < payload.len()
        invariant
            i <= payload@.len(),
            out@ == magic_of(kind) + payload@.take(i as int),
        decreases payload.len() - i,
    {
        out.push(payload[i]);
        i += 1;
        assert(out@ =~= magic_of(kind) + payload@.take(i as int));
    }
    assert(payload@.take(i as int) =~= payload@);
    out
}

/// Whether `bytes` start with the magic of `kind`.
pub fn has_magic(kind: IndexFile, bytes: &[u8]) -> (r: bool)
    ensures
        r == unframed(kind, bytes@) is Some,
{
    let magic = kind.magic();
    if bytes.len() < 4 {
        return false;
    }
    let r = bytes[0] == magic[0] && bytes[1] == magic[1] && bytes[2] == magic[2] && bytes[3] == magic[3];
    assert(r == (bytes@.take(4) =~= magic_of(kind)));
    r
}

/// The payload after the magic; `InvalidIndexFormat` when the magic is wrong or missing.
pub fn unframe(kind: IndexFile, bytes: &[u8]) -> (r: Result<&[u8], TokenizerError>)
    ensures
        unframed(kind, bytes@) is None <==> r is Err,
        r matches Err(e) ==> e is InvalidIndexFormat,
        r matches Ok(p) ==> Some(p@) == unframed(kind, bytes@),
{
    if !has_magic(kind, bytes) {
        return Err(TokenizerError::InvalidIndexFormat("invalid magic bytes".to_owned()));
    }
    let p = &bytes[4..bytes.len()];
    assert(p@ =~= bytes@.skip(4));
    Ok(p)
}

/// Reading back what was written gives the payload back.
pub proof fn lemma_frame_round_trip(kind: IndexFile, payload: Seq<u8>)
    ensures
        unframed(kind, framed(kind, payload)) == Some(payload),
{
    assert(framed(kind, payload).take(4) =~= magic_of(kind));
    assert(framed(kind, payload).skip(4) =~= payload);
}

/// Files of different kinds are told apart by their magic, except the two
/// exact stores, which share one.
pub proof fn lemma_magic_distinct(a: IndexFile, b: IndexFile)
    requires
        magic_of(a) == magic_of(b),
    ensures
        a == b || (a == IndexFile::Exact && b == IndexFile::ExactLower) || (a
            == IndexFile::ExactLower && b == IndexFile::Exact),
{
    assert(magic_of(a)[3] == magic_of(b)[3]);
}

/// Accept a decoded header only at the current format version.
pub fn check_version(header: &IndexHeader) -> (r: Result<(), TokenizerError>)
    ensures
        r is Ok <==> header.version == FORMAT_VERSION,
        r matches Err(e) ==> e is InvalidIndexFormat,
{
    if header.version != FORMAT_VERSION {
        return Err(TokenizerError::InvalidIndexFormat("version mismatch".to_owned()));
    }
    Ok(())
}

/// Two headers may be read together only when they carry the same index id.
pub fn validate_index_match(header1: &IndexHeader, header2: &IndexHeader) -> (r: Result<
    (),
    TokenizerError,
>)
    ensures
        r is Ok <==> header1.index_id@ == header2.index_id@,
        r matches Err(e) ==> e is IndexMismatch,
{
    let mut i: usize = 0;
    while i < 16
        invariant
            i <= 16,
            forall|k: int| 0 <= k < i ==> header1.index_id@[k] == header2.index_id@[k],
        decreases 16 - i,
    {
        if header1.index_id[i] != header2.index_id[i] {
            return Err(
                TokenizerError::IndexMismatch(
                    "Index files were created from different index runs".to_owned(),
                ),
            );
        }
        i += 1;
    }
    assert(header1.index_id@ =~= header2.index_id@);
    Ok(())
}

/// The stem of a file name: what precedes its last `.`, unless that `.` is
/// its first character or there is none, in which case the whole name.
pub open spec fn stem_of(name: Seq<char>) -> Seq<char> {
    if prefix_through(name, '.').len() >= 2 {
        prefix_through(name, '.').drop_last()
    } else {
        name
    }
}

/// The extension of a file name: what follows its last `.`, unless that `.`
/// is its first character or there is none.
pub open spec fn extension_of(name: Seq<char>) -> Option<Seq<char>> {
    if prefix_through(name, '.').len() >= 2 {
        Some(name.skip(prefix_through(name, '.').len() as int))
    } else {
        None
    }
}

/// The file name of `base` with its extension replaced by `ext` (or `ext`
/// appended when it has none), in the same directory.
pub open spec fn with_extension_of(base: Seq<char>, ext: Seq<char>) -> Seq<char> {
    dir_part(base) + stem_of(name_part(base)) + seq!['.'] + ext
}

/// The extension of a file name, when it has one.
pub fn file_extension(name: &str) -> (r: Option<&str>)
    ensures
        r is Some <==> extension_of(name@) is Some,
        r matches Some(e) ==> Some(e@) == extension_of(name@),
{
    match rsplit_once_char(name, '.') {
        Some((before, after)) => {
            proof {
                let d = before@ + seq!['.'];
                assert(name@ =~= d + after@);
                lemma_prefix_through_join(d, after@, '.');
                assert(name@.skip(d.len() as int) =~= after@);
            }
            if before.is_empty() {
                None
            } else {
                Some(after)
            }
        },
        None => {
            proof {
                assert(seq![] + name@ =~= name@);
                lemma_prefix_through_join(seq![], name@, '.');
            }
            None
        },
    }
}

/// The stem of a file name.
fn file_stem(name: &str) -> (r: &str)
    ensures
        r@ == stem_of(name@),
{
    match rsplit_once_char(name, '.') {
        Some((before, after)) => {
            proof {
                let d = before@ + seq!['.'];
                assert(name@ =~= d + after@);
                lemma_prefix_through_join(d, after@, '.');
                assert(d.drop_last() =~= before@);
            }
            if before.is_empty() {
                name
            } else {
                before
            }
        },
        None => {
            proof {
                assert(seq![] + name@ =~= name@);
                lemma_prefix_through_join(seq![], name@, '.');
            }
            name
        },
    }
}

/// `base` with its extension replaced by `ext`.
pub fn with_extension(base: &str, ext: &str) -> (r: String)
    ensures
        r@ == with_extension_of(base@, ext@),
{
    proof {
        reveal_strlit(".");
    }
    let (dir, name) = split_path(base);
    let stem = file_stem(name.as_str());
    let r = dir.concat(stem).concat(".").concat(ext);
    assert(r@ =~= with_extension_of(base@, ext@));
    r
}

/// The registry file of an index: `<base>.paths`.
pub fn paths_file(base: &str) -> (r: String)
    ensures
        r@ == with_extension_of(base@, "paths"@),
{
    with_extension(base, "paths")
}

/// The case-sensitive token file of an index: `<base>.exact`.
pub fn exact_file(base: &str) -> (r: String)
    ensures
        r@ == with_extension_of(base@, "exact"@),
{
    with_extension(base, "exact")
}

/// The lowercased token file of an index: `<base>.exacti`.
pub fn exact_lower_file(base: &str) -> (r: String)
    ensures
        r@ == with_extension_of(base@, "exacti"@),
{
    with_extension(base, "exacti")
}

/// The trigram file of an index: `<base>.tri`.
pub fn trigram_file(base: &str) -> (r: String)
    ensures
        r@ == with_extension_of(base@, "tri"@),
{
    with_extension(base, "tri")
}

} // verus!
