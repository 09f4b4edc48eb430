//! Glob patterns (compiled by globset) and the file-name search built on them.

use crate::error::TokenizerError;
use crate::index::PathIndex;
use crate::select::{kept_ids, lemma_kept_ids_prefix, lemma_limited_prefix, limited};
use crate::text::name_part;
use globset::{GlobBuilder, GlobSet, GlobSetBuilder};
use vstd::prelude::*;

verus! {

/// Declares globset::GlobSet, held opaque inside `GlobPattern`.
#[verifier::external_type_specification]
#[verifier::external_body]
pub struct ExGlobSet(GlobSet);

/// Declares globset::Error, the reason a pattern does not compile.
#[verifier::external_type_specification]
#[verifier::external_body]
pub struct ExGlobError(globset::Error);

/// Whether glob `pattern` compiles with the given case folding.
pub uninterp spec fn glob_compiles(pattern: Seq<char>, case_insensitive: bool) -> bool;

/// Whether `name` matches glob `pattern` compiled with the given case folding.
pub uninterp spec fn glob_accepts(pattern: Seq<char>, case_insensitive: bool, name: Seq<char>) -> bool;

/// A compiled glob pattern together with the text and case folding it was
/// compiled from. Only `compile_glob` builds one, so the two always agree.
pub struct GlobPattern {
    source: String,
    case_insensitive: bool,
    set: GlobSet,
}

impl GlobPattern {
    /// The pattern text.
    pub closed spec fn source(&self) -> Seq<char> {
        self.source@
    }

    /// Whether the pattern ignores case.
    pub closed spec fn folds_case(&self) -> bool {
        self.case_insensitive
    }

    /// Relies on globset::GlobSet::is_match, on a set built from this one
    /// pattern: whether `name` matches it.
    #[verifier::external_body]
    pub(crate) fn is_match(&self, name: &str) -> (r: bool)
        ensures
            r == glob_accepts(self.source(), self.folds_case(), name@),
    {
        self.set.is_match(name)
    }
}

/// Relies on globset::GlobBuilder::build and GlobSetBuilder::build: the
/// pattern compiles, or the error says why; which of the two depends on the
/// pattern and the case folding alone.
#[verifier::external_body]
pub(crate) fn compile_glob(pattern: &str, case_insensitive: bool) -> (r: Result<GlobPattern, globset::Error>)
    ensures
        r is Ok <==> glob_compiles(pattern@, case_insensitive),
        r matches Ok(g) ==> g.source() == pattern@ && g.folds_case() == case_insensitive,
{
    let glob = GlobBuilder::new(pattern).case_insensitive(case_insensitive).build()?;
    let set = GlobSetBuilder::new().add(glob).build()?;
    Ok(GlobPattern { source: pattern.to_string(), case_insensitive, set })
}

/// Relies on `Display for globset::Error`: a description of the error.
#[verifier::external_body]
fn glob_error_text(e: &globset::Error) -> (r: String) {
    e.to_string()
}

/// Options for a file-name search.
#[derive(Debug, Clone, Default)]
pub struct GlobOptions {
    /// Largest number of results.
    pub limit: Option<usize>,
}

/// Result of a file-name search.
#[derive(Debug, Clone)]
pub struct GlobResult {
    /// Paths of the matching files, in file-id order.
    pub files: Vec<String>,
    /// The pattern searched for.
    pub pattern: String,
    /// Number of files examined.
    pub files_scanned: usize,
}

/// Whether file `i` of `paths` has a name that matches `pattern`, case-sensitively.
pub open spec fn name_matches(paths: Seq<Seq<char>>, pattern: Seq<char>) -> spec_fn(int) -> bool {
    |i: int| 0 <= i < paths.len() && glob_accepts(pattern, false, name_part(paths[i]))
}

/// The ids of the files whose name matches `pattern`, ascending, cut to the limit.
pub open spec fn glob_hits(paths: Seq<Seq<char>>, pattern: Seq<char>, limit: Option<usize>) -> Seq<u32> {
    limited(kept_ids(name_matches(paths, pattern), paths.len() as int), limit)
}

/// Search file names (not full paths) with a case-sensitive glob pattern.
pub fn glob_files(index: &PathIndex, pattern: &str, options: &GlobOptions) -> (r: Result<GlobResult, TokenizerError>)
    requires
        index.wf(),
    ensures
        r is Err <==> !glob_compiles(pattern@, false),
        r matches Err(e) ==> e is InvalidPattern,
        r matches Ok(res) ==> {
            let hits = glob_hits(index.paths(), pattern@, options.limit);
            &&& res.pattern@ == pattern@
            &&& res.files_scanned == index.paths().len()
            &&& res.files@.len() == hits.len()
            &&& forall|k: int| 0 <= k < hits.len() ==> (#[trigger] res.files@[k])@ == index.paths()[hits[k] as int]
        },
{
    let glob = match compile_glob(pattern, false) {
        Ok(g) => g,
        Err(e) => {
            return Err(TokenizerError::InvalidPattern(glob_error_text(&e)));
        },
    };
    let n = index.file_count();
    let ghost keep = name_matches(index.paths(), pattern@);
    let mut files: Vec<String> = Vec::new();
    let mut i: usize = 0;
    while i < n
        invariant
            index.wf(),
            n == index.paths().len(),
            n <= u32::MAX,
            i <= n,
            glob.source() == pattern@,
            !glob.folds_case(),
            keep == name_matches(index.paths(), pattern@),
            files@.len() == kept_ids(keep, i as int).len(),
            forall|k: int| 0 <= k < files@.len() ==> (#[trigger] files@[k])@ == index.paths()[kept_ids(keep, i as int)[k] as int],
            options.limit matches Some(l) ==> files@.len() <= l,
        ensures
            limited(kept_ids(keep, i as int), options.limit) == glob_hits(index.paths(), pattern@, options.limit),
            files@.len() == limited(kept_ids(keep, i as int), options.limit).len(),
            forall|k: int| 0 <= k < files@.len() ==> (#[trigger] files@[k])@ == index.paths()[kept_ids(keep, i as int)[k] as int],
        decreases n - i,
    {
        match options.limit {
            Some(l) => {
                if files.len() >= l {
                    proof {
                        lemma_kept_ids_prefix(keep, i as int, n as int);
                        lemma_limited_prefix(kept_ids(keep, i as int), kept_ids(keep, n as int), l);
                    }
                    break;
                }
            },
            None => {},
        }
        let ghost before = kept_ids(keep, i as int);
        match index.get_file_name(i as u32) {
            Some(name) => {
                if glob.is_match(name.as_str()) {
                    match index.get_file_path(i as u32) {
                        Some(p) => files.push(p),
                        None => {},
                    }
                }
            },
            None => {},
        }
        i += 1;
        assert(kept_ids(keep, i as int) == before + if keep(i - 1) { seq![(i - 1) as u32] } else { seq![] });
    }
    Ok(GlobResult { files, pattern: pattern.to_owned(), files_scanned: n })
}

} // verus!
