//! The query planner: tokenize the query, look up one bitmap per key,
//! intersect or unite them, then resolve ids to paths through the filters.

use crate::bitmap::{
    bitmap_and_assign, bitmap_clone, bitmap_ids, bitmap_is_empty, bitmap_len, bitmap_new,
    bitmap_or_assign, bitmap_to_vec, id_sets, intersection_of, union_of,
};
use crate::glob::{compile_glob, glob_accepts, glob_compiles, GlobPattern};
use crate::index::{ExactTokenIndex, PathIndex, PathRegistry, TokenIndex, TrigramIndex};
use crate::select::{
    kept_ids, lemma_kept_ids_contains, lemma_kept_ids_gap, lemma_kept_ids_prefix, lemma_limited_prefix, limited,
};
use crate::text::{contains_str, lower_of, lowercase, name_part, occurs_in};
use crate::tokenizer::{
    exact_tokens, hashes, lower_hashes, tokenize_query, tokenize_query_exact,
    tokenize_query_exact_lower, word_tokens,
};
use crate::trigram::{extract_query_trigrams, trigrams};
use roaring::RoaringBitmap;
use vstd::prelude::*;
use vstd::string::StringSliceAdditionalSpecFns;

verus! {

/// Result of a query.
#[derive(Debug)]
pub struct QueryResult {
    /// Paths of the matching files, in file-id order.
    pub files: Vec<String>,
    /// Number of keys extracted from the query text.
    pub query_token_count: usize,
    /// Number of those keys with a non-empty posting.
    pub matched_token_count: usize,
}

/// Query options.
#[derive(Debug, Clone, Default)]
pub struct QueryOptions {
    /// Largest number of results.
    pub limit: Option<usize>,
    /// Require every key (AND) rather than any key (OR).
    pub match_all: bool,
    /// Keep paths that contain this text, ignoring case.
    pub path_contains: Option<String>,
    /// Keep files whose name matches at least one of these globs, ignoring case.
    pub glob_patterns: Option<Vec<String>>,
    /// Drop paths that contain this text, ignoring case.
    pub exclude: Option<String>,
}

/// The non-empty postings of the keys of `ks` that have one, in key order.
pub open spec fn matched_sets<K>(ks: Seq<K>, p: Map<K, Set<u32>>) -> Seq<Set<u32>>
    decreases ks.len(),
{
    if ks.len() == 0 {
        seq![]
    } else {
        matched_sets(ks.drop_last(), p) + if p.contains_key(ks.last()) && p[ks.last()]
            != Set::<u32>::empty() {
            seq![p[ks.last()]]
        } else {
            seq![]
        }
    }
}

/// The ids an AND (`all`) or OR query selects from its matched postings.
pub open spec fn combined(all: bool, sets: Seq<Set<u32>>) -> Set<u32> {
    if all {
        intersection_of(sets)
    } else {
        union_of(sets)
    }
}

/// The file name passes the glob filter: no patterns given, or it matches
/// one of the given patterns that compiles, ignoring case.
pub open spec fn glob_filter_ok(patterns: Option<Vec<String>>, name: Seq<char>) -> bool {
    match patterns {
        None => true,
        Some(ps) => exists|i: int|
            0 <= i < ps@.len() && glob_compiles(ps@[i]@, true) && #[trigger] glob_accepts(
                ps@[i]@,
                true,
                name,
            ),
    }
}

/// A path passes the filters of `o`: it contains `path_contains`, its file
/// name passes the glob filter, and it does not contain `exclude`, each test
/// on lowercased text and skipped when its option is absent.
pub open spec fn path_accepted(o: QueryOptions, path: Seq<char>) -> bool {
    &&& (o.path_contains matches Some(n) ==> occurs_in(lower_of(n@), lower_of(path)))
    &&& glob_filter_ok(o.glob_patterns, name_part(path))
    &&& (o.exclude matches Some(x) ==> !occurs_in(lower_of(x@), lower_of(path)))
}

/// Ids that name a file of `paths`, belong to `ids` and pass the filters.
pub open spec fn candidate(paths: Seq<Seq<char>>, ids: Set<u32>, o: QueryOptions) -> spec_fn(
    int,
) -> bool {
    |i: int| 0 <= i < paths.len() && ids.contains(i as u32) && path_accepted(o, paths[i])
}

/// The ids a query returns: candidates in ascending order, cut to the limit.
pub open spec fn resolved(paths: Seq<Seq<char>>, ids: Set<u32>, o: QueryOptions) -> Seq<u32> {
    limited(kept_ids(candidate(paths, ids, o), paths.len() as int), o.limit)
}

/// `files` are the paths of the ids `sel`, in order.
pub open spec fn paths_of(files: Seq<String>, paths: Seq<Seq<char>>, sel: Seq<u32>) -> bool {
    &&& files.len() == sel.len()
    &&& forall|k: int| 0 <= k < sel.len() ==> (#[trigger] files[k])@ == paths[sel[k] as int]
}

/// Filters with their needles lowercased and their globs compiled once.
struct Filters {
    contains: Option<String>,
    globs: Option<Vec<GlobPattern>>,
    exclude: Option<String>,
}

/// `s` is one of the patterns of `ps` that compile ignoring case.
spec fn pattern_listed(ps: Seq<String>, s: Seq<char>) -> bool {
    exists|m: int| 0 <= m < ps.len() && glob_compiles(ps[m]@, true) && #[trigger] ps[m]@ == s
}

/// Some glob of `gs` was compiled from `s`.
spec fn glob_listed(gs: Seq<GlobPattern>, s: Seq<char>) -> bool {
    exists|j: int| 0 <= j < gs.len() && #[trigger] gs[j].source() == s
}

/// `gs` holds the patterns of `ps` that compile, compiled ignoring case.
spec fn compiled_from(gs: Seq<GlobPattern>, ps: Seq<String>) -> bool {
    &&& forall|j: int| 0 <= j < gs.len() ==> (#[trigger] gs[j]).folds_case()
    &&& forall|j: int| 0 <= j < gs.len() ==> pattern_listed(ps, (#[trigger] gs[j]).source())
    &&& forall|i: int|
        0 <= i < ps.len() && glob_compiles(#[trigger] ps[i]@, true) ==> glob_listed(gs, ps[i]@)
}

spec fn filters_for(f: Filters, o: QueryOptions) -> bool {
    &&& (f.contains is Some <==> o.path_contains is Some)
    &&& (o.path_contains matches Some(n) ==> f.contains->0@ == lower_of(n@))
    &&& (f.exclude is Some <==> o.exclude is Some)
    &&& (o.exclude matches Some(x) ==> f.exclude->0@ == lower_of(x@))
    &&& (f.globs is Some <==> o.glob_patterns is Some)
    &&& (o.glob_patterns matches Some(ps) ==> compiled_from(f.globs->0@, ps@))
}

/// Compile each pattern ignoring case, leaving out those that do not compile.
fn compile_globs(patterns: &Vec<String>) -> (r: Vec<GlobPattern>)
    ensures
        compiled_from(r@, patterns@),
{
    let mut out: Vec<GlobPattern> = Vec::new();
    let mut i: usize = 0;
    while i < patterns.len()
        invariant
            i <= patterns@.len(),
            forall|j: int| 0 <= j < out@.len() ==> (#[trigger] out@[j]).folds_case(),
            forall|j: int| 0 <= j < out@.len() ==> pattern_listed(patterns@, (#[trigger] out@[j]).source()),
            forall|m: int|
                0 <= m < i && glob_compiles(#[trigger] patterns@[m]@, true) ==> glob_listed(out@, patterns@[m]@),
        decreases patterns.len() - i,
    {
        let ghost before = out@;
        match compile_glob(patterns[i].as_str(), true) {
            Ok(g) => {
                out.push(g);
                let ghost last = out@.len() - 1;
                assert(out@[last].source() == patterns@[i as int]@);
                assert forall|m: int|
                    0 <= m < i + 1 && glob_compiles(#[trigger] patterns@[m]@, true) implies glob_listed(out@, patterns@[m]@) by {
                    if m < i {
                        let j = choose|j: int| 0 <= j < before.len() && #[trigger] before[j].source() == patterns@[m]@;
                        assert(out@[j] == before[j]);
                        assert(out@[j].source() == patterns@[m]@);
                    } else {
                        assert(out@[last].source() == patterns@[m]@);
                    }
                }
                assert forall|j: int| 0 <= j < out@.len() implies pattern_listed(patterns@, (#[trigger] out@[j]).source()) by {
                    if j < before.len() {
                        assert(out@[j] == before[j]);
                    } else {
                        assert(patterns@[i as int]@ == out@[j].source());
                    }
                }
            },
            Err(_) => {
                assert forall|m: int|
                    0 <= m < i + 1 && glob_compiles(#[trigger] patterns@[m]@, true) implies glob_listed(out@, patterns@[m]@) by {
                }
            },
        }
        i += 1;
    }
    out
}

fn compile_filters(options: &QueryOptions) -> (r: Filters)
    ensures
        filters_for(r, *options),
{
    let contains = match &options.path_contains {
        Some(n) => Some(lowercase(n.as_str())),
        None => None,
    };
    let exclude = match &options.exclude {
        Some(x) => Some(lowercase(x.as_str())),
        None => None,
    };
    let globs = match &options.glob_patterns {
        Some(ps) => Some(compile_globs(ps)),
        None => None,
    };
    Filters { contains, globs, exclude }
}

/// Whether a file name matches at least one of the compiled globs.
fn matches_any(globs: &Vec<GlobPattern>, name: &str) -> (r: bool)
    ensures
        r == exists|j: int|
            0 <= j < globs@.len() && #[trigger] glob_accepts(
                globs@[j].source(),
                globs@[j].folds_case(),
                name@,
            ),
{
    let mut j: usize = 0;
    while j < globs.len()
        invariant
            j <= globs@.len(),
            forall|m: int|
                0 <= m < j ==> !#[trigger] glob_accepts(
                    globs@[m].source(),
                    globs@[m].folds_case(),
                    name@,
                ),
        decreases globs.len() - j,
    {
        if globs[j].is_match(name) {
            return true;
        }
        j += 1;
    }
    false
}

/// Whether a path, whose file name is `name`, passes the filters.
fn passes(filters: &Filters, options: &QueryOptions, path: &String, name: &String) -> (r: bool)
    requires
        filters_for(*filters, *options),
        name@ == name_part(path@),
    ensures
        r == path_accepted(*options, path@),
{
    let lowered = if filters.contains.is_some() || filters.exclude.is_some() {
        lowercase(path.as_str())
    } else {
        String::new()
    };
    match &filters.contains {
        Some(n) => {
            if !contains_str(lowered.as_str(), n.as_str()) {
                return false;
            }
        },
        None => {},
    }
    match &filters.globs {
        Some(gs) => {
            let hit = matches_any(gs, name.as_str());
            proof {
                let ps = options.glob_patterns->0;
                if hit {
                    let j = choose|j: int|
                        0 <= j < gs@.len() && #[trigger] glob_accepts(
                            gs@[j].source(),
                            gs@[j].folds_case(),
                            name@,
                        );
                    assert(gs@[j].folds_case());
                    assert(pattern_listed(ps@, gs@[j].source()));
                    let i = choose|i: int|
                        0 <= i < ps@.len() && glob_compiles(ps@[i]@, true) && #[trigger] ps@[i]@
                            == gs@[j].source();
                    assert(glob_accepts(ps@[i]@, true, name@));
                } else if glob_filter_ok(options.glob_patterns, name@) {
                    let i = choose|i: int|
                        0 <= i < ps@.len() && glob_compiles(ps@[i]@, true) && #[trigger] glob_accepts(
                            ps@[i]@,
                            true,
                            name@,
                        );
                    assert(glob_listed(gs@, ps@[i]@));
                    let j = choose|j: int| 0 <= j < gs@.len() && #[trigger] gs@[j].source() == ps@[i]@;
                    assert(gs@[j].folds_case());
                    assert(glob_accepts(gs@[j].source(), gs@[j].folds_case(), name@));
                }
            }
            if !hit {
                return false;
            }
        },
        None => {},
    }
    match &filters.exclude {
        Some(x) => {
            if contains_str(lowered.as_str(), x.as_str()) {
                return false;
            }
        },
        None => {},
    }
    true
}

/// Resolve the ids of `bitmap`, ascending, to paths; keep those that pass the
/// filters of `options`, stopping once `limit` paths are kept.
pub fn resolve_file_ids(path_index: &PathIndex, bitmap: &RoaringBitmap, options: &QueryOptions) -> (r: Vec<String>)
    requires
        path_index.wf(),
    ensures
        paths_of(r@, path_index.paths(), resolved(path_index.paths(), bitmap_ids(*bitmap), *options)),
        options.limit matches Some(l) ==> r@.len() <= l,
{
    resolve_ids(&path_index.registry, bitmap, options)
}

fn resolve_ids(path_index: &PathRegistry, bitmap: &RoaringBitmap, options: &QueryOptions) -> (r: Vec<String>)
    requires
        path_index.wf(),
    ensures
        paths_of(r@, path_index.paths(), resolved(path_index.paths(), bitmap_ids(*bitmap), *options)),
{
    let filters = compile_filters(options);
    let ids = bitmap_to_vec(bitmap);
    let ghost paths = path_index.paths();
    let ghost n = paths.len() as int;
    let ghost keep = candidate(paths, bitmap_ids(*bitmap), *options);
    let ghost mut bound: int = 0;
    let mut out: Vec<String> = Vec::new();
    let mut k: usize = 0;
    while k < ids.len()
        invariant
            path_index.wf(),
            paths == path_index.paths(),
            n == paths.len(),
            n <= u32::MAX,
            filters_for(filters, *options),
            keep == candidate(paths, bitmap_ids(*bitmap), *options),
            ids@.to_set() == bitmap_ids(*bitmap),
            forall|a: int, b: int| 0 <= a < b < ids@.len() ==> ids@[a] < ids@[b],
            k <= ids@.len(),
            0 <= bound <= 0x1_0000_0000,
            k == 0 ==> bound == 0,
            k > 0 ==> bound == ids@[k - 1] as int + 1,
            paths_of(out@, paths, kept_ids(keep, bound)),
            options.limit matches Some(l) ==> out@.len() <= l,
        decreases ids.len() - k,
    {
        match options.limit {
            Some(l) => {
                if out.len() >= l {
                    proof {
                        if bound <= n {
                            lemma_kept_ids_prefix(keep, bound, n);
                            lemma_limited_prefix(kept_ids(keep, bound), kept_ids(keep, n), l);
                        } else {
                            lemma_kept_ids_gap(keep, n, bound);
                        }
                    }
                    return out;
                }
            },
            None => {},
        }
        let id = ids[k];
        proof {
            assert forall|x: int| bound <= x < id as int implies !#[trigger] keep(x) by {
                if keep(x) {
                    assert(ids@.to_set().contains(x as u32));
                    let j = choose|j: int| 0 <= j < ids@.len() && ids@[j] == x as u32;
                    if j < k {
                        assert(ids@[j] <= ids@[k - 1]);
                    } else if j > k {
                        assert(ids@[k as int] < ids@[j]);
                    }
                }
            }
            lemma_kept_ids_gap(keep, bound, id as int);
            assert(ids@.to_set().contains(id));
        }
        let ghost before = kept_ids(keep, id as int);
        match path_index.path(id) {
            Some(p) => {
                match path_index.file_name(id) {
                    Some(name) => {
                        if passes(&filters, options, &p, name) {
                            out.push(p);
                        }
                    },
                    None => {},
                }
            },
            None => {},
        }
        proof {
            bound = id as int + 1;
            assert(kept_ids(keep, bound) == before + if keep(id as int) { seq![id] } else { seq![] });
            assert(paths_of(out@, paths, kept_ids(keep, bound)));
        }
        k += 1;
    }
    proof {
        {
            assert forall|x: int| bound <= x < 0x1_0000_0000 implies !#[trigger] keep(x) by {
                if keep(x) {
                    assert(ids@.to_set().contains(x as u32));
                    let j = choose|j: int| 0 <= j < ids@.len() && ids@[j] == x as u32;
                    if j < k {
                        assert(ids@[j] <= ids@[k - 1]);
                    }
                }
            }
            if bound <= n {
                lemma_kept_ids_gap(keep, bound, n);
            } else {
                assert forall|x: int| n <= x < bound implies !#[trigger] keep(x) by {}
                lemma_kept_ids_gap(keep, n, bound);
            }
        }
    }
    out
}

/// Indices of `bitmaps`, ordered by the number of ids each holds, smallest first.
fn order_by_cardinality(bitmaps: &Vec<&RoaringBitmap>) -> (r: Vec<usize>)
    ensures
        r@.len() == bitmaps@.len(),
        forall|t: int| 0 <= t < r@.len() ==> (#[trigger] r@[t] as int) < bitmaps@.len(),
        forall|i: int| 0 <= i < bitmaps@.len() ==> #[trigger] r@.contains(i as usize),
        forall|a: int, b: int|
            0 <= a < b < r@.len() ==> bitmap_ids(*bitmaps@[r@[a] as int]).len() <= bitmap_ids(
                *bitmaps@[r@[b] as int],
            ).len(),
{
    let n = bitmaps.len();
    let mut lens: Vec<u64> = Vec::new();
    let mut order: Vec<usize> = Vec::new();
    let mut i: usize = 0;
    while i < n
        invariant
            n == bitmaps@.len(),
            i <= n,
            lens@.len() == i,
            order@.len() == i,
            forall|t: int| 0 <= t < i ==> order@[t] == t,
            forall|t: int| 0 <= t < i ==> lens@[t] == bitmap_ids(*bitmaps@[t]).len(),
        decreases n - i,
    {
        lens.push(bitmap_len(bitmaps[i]));
        order.push(i);
        i += 1;
    }
    proof {
        assert forall|t: int| 0 <= t < n implies #[trigger] order@.contains(t as usize) by {
            assert(order@[t] == t);
        }
    }
    let mut a: usize = 0;
    while a < n
        invariant
            n == bitmaps@.len(),
            lens@.len() == n,
            order@.len() == n,
            a <= n,
            forall|t: int| 0 <= t < n ==> lens@[t] == bitmap_ids(*bitmaps@[t]).len(),
            forall|t: int| 0 <= t < n ==> (#[trigger] order@[t] as int) < n,
            forall|t: int| 0 <= t < n ==> #[trigger] order@.contains(t as usize),
            forall|x: int, y: int| 0 <= x < y < a ==> lens@[order@[x] as int] <= lens@[order@[y] as int],
            forall|x: int, y: int| 0 <= x < a <= y < n ==> lens@[order@[x] as int] <= lens@[order@[y] as int],
        decreases n - a,
    {
        let mut m: usize = a;
        let mut b: usize = a + 1;
        while b < n
            invariant
                n == bitmaps@.len(),
                lens@.len() == n,
                order@.len() == n,
                a < n,
                a <= m < n,
                a < b <= n,
                forall|t: int| 0 <= t < n ==> (#[trigger] order@[t] as int) < n,
                forall|y: int| a <= y < b ==> lens@[order@[m as int] as int] <= lens@[order@[y] as int],
            decreases n - b,
        {
            if lens[order[b]] < lens[order[m]] {
                m = b;
            }
            b += 1;
        }
        let ghost before = order@;
        let x = order[a];
        let y = order[m];
        order.set(a, y);
        order.set(m, x);
        proof {
            assert forall|t: int| 0 <= t < n implies #[trigger] order@.contains(t as usize) by {
                assert(before.contains(t as usize));
                let j = choose|j: int| 0 <= j < n && before[j] == t as usize;
                if j == a {
                    assert(order@[m as int] == t as usize);
                } else if j == m {
                    assert(order@[a as int] == t as usize);
                } else {
                    assert(order@[j] == t as usize);
                }
            }
        }
        a += 1;
    }
    order
}

/// The ids held by every bitmap, from the smallest bitmap up, stopping early
/// once nothing is left; nothing for an empty list.
pub fn intersect_bitmaps(bitmaps: &Vec<&RoaringBitmap>) -> (r: RoaringBitmap)
    ensures
        bitmap_ids(r) == intersection_of(id_sets(bitmaps@)),
{
    let ghost sets = id_sets(bitmaps@);
    if bitmaps.len() == 0 {
        let r = bitmap_new();
        return r;
    }
    let order = order_by_cardinality(bitmaps);
    let n = bitmaps.len();
    let mut result = bitmap_clone(bitmaps[order[0]]);
    assert(sets[order@[0] as int] == bitmap_ids(*bitmaps@[order@[0] as int]));
    let mut j: usize = 1;
    while j < n
        invariant
            n == bitmaps@.len(),
            n > 0,
            sets == id_sets(bitmaps@),
            order@.len() == n,
            forall|t: int| 0 <= t < n ==> (#[trigger] order@[t] as int) < n,
            forall|i: int| 0 <= i < n ==> #[trigger] order@.contains(i as usize),
            1 <= j <= n,
            forall|x: u32| bitmap_ids(result).contains(x) <==> forall|t: int| 0 <= t < j ==> #[trigger] sets[order@[t] as int].contains(x),
        decreases n - j,
    {
        bitmap_and_assign(&mut result, bitmaps[order[j]]);
        proof {
            assert forall|x: u32| bitmap_ids(result).contains(x) <==> forall|t: int| 0 <= t < j + 1 ==> #[trigger] sets[order@[t] as int].contains(x) by {
                if forall|t: int| 0 <= t < j + 1 ==> #[trigger] sets[order@[t] as int].contains(x) {
                    assert(sets[order@[j as int] as int].contains(x));
                }
            }
        }
        if bitmap_is_empty(&result) {
            proof {
                assert forall|x: u32| !intersection_of(sets).contains(x) by {
                    if intersection_of(sets).contains(x) {
                        assert forall|t: int| 0 <= t < j + 1 implies #[trigger] sets[order@[t] as int].contains(x) by {}
                        assert(bitmap_ids(result).contains(x));
                    }
                }
                assert(bitmap_ids(result) =~= intersection_of(sets));
            }
            return result;
        }
        j += 1;
    }
    proof {
        {
            assert forall|x: u32| bitmap_ids(result).contains(x) <==> intersection_of(sets).contains(x) by {
                if bitmap_ids(result).contains(x) {
                    assert forall|i: int| 0 <= i < sets.len() implies #[trigger] sets[i].contains(x) by {
                        assert(order@.contains(i as usize));
                        let t = choose|t: int| 0 <= t < n && order@[t] == i as usize;
                        assert(sets[order@[t] as int].contains(x));
                    }
                }
            }
            assert(bitmap_ids(result) =~= intersection_of(sets));
        }
    }
    result
}

/// The ids held by at least one bitmap.
pub fn union_bitmaps(bitmaps: &Vec<&RoaringBitmap>) -> (r: RoaringBitmap)
    ensures
        bitmap_ids(r) == union_of(id_sets(bitmaps@)),
{
    let ghost sets = id_sets(bitmaps@);
    let mut result = bitmap_new();
    let mut j: usize = 0;
    while j < bitmaps.len()
        invariant
            j <= bitmaps@.len(),
            sets == id_sets(bitmaps@),
            forall|x: u32| bitmap_ids(result).contains(x) <==> exists|t: int| 0 <= t < j && #[trigger] sets[t].contains(x),
        decreases bitmaps.len() - j,
    {
        bitmap_or_assign(&mut result, bitmaps[j]);
        proof {
            assert forall|x: u32| bitmap_ids(result).contains(x) <==> exists|t: int| 0 <= t < j + 1 && #[trigger] sets[t].contains(x) by {
                if bitmap_ids(*bitmaps@[j as int]).contains(x) {
                    assert(sets[j as int].contains(x));
                }
                if exists|t: int| 0 <= t < j + 1 && #[trigger] sets[t].contains(x) {
                    let t = choose|t: int| 0 <= t < j + 1 && #[trigger] sets[t].contains(x);
                    if t < j {
                    } else {
                        assert(bitmap_ids(*bitmaps@[j as int]).contains(x));
                    }
                }
            }
        }
        j += 1;
    }
    assert(bitmap_ids(result) =~= union_of(sets));
    result
}

/// Without a limit, every file an AND query returns is also returned by the
/// OR query over the same postings.
pub proof fn lemma_and_within_or(paths: Seq<Seq<char>>, sets: Seq<Set<u32>>, o: QueryOptions)
    requires
        o.limit is None,
        paths.len() <= u32::MAX,
    ensures
        forall|x: u32|
            resolved(paths, combined(true, sets), o).contains(x) ==> resolved(
                paths,
                combined(false, sets),
                o,
            ).contains(x),
{
    crate::bitmap::lemma_intersection_within_union(sets);
    assert forall|x: u32|
        resolved(paths, combined(true, sets), o).contains(x) implies resolved(
            paths,
            combined(false, sets),
            o,
        ).contains(x) by {
        let n = paths.len() as int;
        lemma_kept_ids_contains(candidate(paths, combined(true, sets), o), n, x as int);
        lemma_kept_ids_contains(candidate(paths, combined(false, sets), o), n, x as int);
        assert(intersection_of(sets).contains(x));
    }
}

/// With no filters and a limit of `l`, a query whose selected ids include
/// `l` ids that name files returns exactly `l` paths, those of the `l`
/// smallest such ids.
pub proof fn lemma_limit_reached(
    paths: Seq<Seq<char>>,
    ids: Set<u32>,
    o: QueryOptions,
    l: usize,
    within: Set<u32>,
)
    requires
        o.limit == Some(l),
        o.path_contains is None,
        o.glob_patterns is None,
        o.exclude is None,
        paths.len() <= u32::MAX,
        within.finite(),
        within.len() >= l,
        within.subset_of(ids),
        forall|x: u32| #[trigger] within.contains(x) ==> (x as int) < paths.len(),
    ensures
        resolved(paths, ids, o).len() == l,
        resolved(paths, ids, o) == kept_ids(candidate(paths, ids, o), paths.len() as int).take(l as int),
{
    let n = paths.len() as int;
    let keep = candidate(paths, ids, o);
    let k = kept_ids(keep, n);
    crate::select::lemma_kept_ids_members(keep, n);
    assert(k.no_duplicates()) by {
        assert forall|a: int, b: int| 0 <= a < k.len() && 0 <= b < k.len() && a != b implies k[a] != k[b] by {
            if a < b {
                assert(k[a] < k[b]);
            } else {
                assert(k[b] < k[a]);
            }
        }
    }
    k.unique_seq_to_set();
    assert forall|x: u32| within.contains(x) implies k.to_set().contains(x) by {
        lemma_kept_ids_contains(keep, n, x as int);
        assert(keep(x as int));
    }
    vstd::set_lib::lemma_len_subset(within, k.to_set());
}

/// What a query returns for the keys `keys` against postings `postings`.
pub open spec fn query_outcome<K>(
    r: QueryResult,
    paths: Seq<Seq<char>>,
    keys: Seq<K>,
    postings: Map<K, Set<u32>>,
    o: QueryOptions,
) -> bool {
    let sets = matched_sets(keys, postings);
    &&& r.query_token_count == keys.len()
    &&& r.matched_token_count == sets.len()
    &&& paths_of(r.files@, paths, resolved(paths, combined(o.match_all, sets), o))
    &&& (o.limit matches Some(l) ==> r.files@.len() <= l)
}

/// Compose the matched bitmaps and resolve the result.
fn plan(
    registry: &PathRegistry,
    bitmaps: &Vec<&RoaringBitmap>,
    query_token_count: usize,
    options: &QueryOptions,
) -> (r: QueryResult)
    requires
        registry.wf(),
    ensures
        r.query_token_count == query_token_count,
        r.matched_token_count == bitmaps@.len(),
        paths_of(r.files@, registry.paths(), resolved(registry.paths(), combined(options.match_all, id_sets(bitmaps@)), *options)),
        options.limit matches Some(l) ==> r.files@.len() <= l,
{
    if bitmaps.len() == 0 {
        proof {
            let keep = candidate(registry.paths(), combined(options.match_all, id_sets(bitmaps@)), *options);
            assert(id_sets(bitmaps@) =~= seq![]);
            assert forall|x: int| 0 <= x < registry.paths().len() implies !#[trigger] keep(x) by {
                assert(!union_of(id_sets(bitmaps@)).contains(x as u32));
            }
            lemma_kept_ids_gap(keep, 0, registry.paths().len() as int);
            assert(kept_ids(keep, 0) =~= seq![]);
        }
        return QueryResult { files: Vec::new(), query_token_count, matched_token_count: 0 };
    }
    let result = if options.match_all {
        intersect_bitmaps(bitmaps)
    } else {
        union_bitmaps(bitmaps)
    };
    let files = resolve_ids(registry, &result, options);
    QueryResult { files, query_token_count, matched_token_count: bitmaps.len() }
}

proof fn lemma_matched_step<K>(keys: Seq<K>, i: int, p: Map<K, Set<u32>>)
    requires
        0 <= i < keys.len(),
    ensures
        matched_sets(keys.take(i + 1), p) == matched_sets(keys.take(i), p) + if p.contains_key(keys[i])
            && p[keys[i]] != Set::<u32>::empty() {
            seq![p[keys[i]]]
        } else {
            seq![]
        },
{
    assert(keys.take(i + 1).drop_last() =~= keys.take(i));
}

/// The non-empty bitmaps of an exact store under `keys`, in key order.
fn exact_bitmaps<'a>(index: &'a ExactTokenIndex, keys: &Vec<u64>) -> (r: Vec<&'a RoaringBitmap>)
    ensures
        id_sets(r@) == matched_sets(keys@, index.postings()),
{
    let mut out: Vec<&RoaringBitmap> = Vec::new();
    let mut i: usize = 0;
    assert(keys@.take(0) =~= seq![]);
    while i < keys.len()
        invariant
            i <= keys@.len(),
            id_sets(out@) == matched_sets(keys@.take(i as int), index.postings()),
        decreases keys.len() - i,
    {
        proof {
            lemma_matched_step(keys@, i as int, index.postings());
        }
        match index.get_bitmap(keys[i]) {
            Some(b) => {
                if !bitmap_is_empty(b) {
                    out.push(b);
                }
            },
            None => {},
        }
        assert(id_sets(out@) =~= matched_sets(keys@.take(i + 1), index.postings()));
        i += 1;
    }
    assert(keys@.take(i as int) =~= keys@);
    out
}

/// The non-empty bitmaps of a trigram store under `keys`, in key order.
fn trigram_bitmaps<'a>(index: &'a TrigramIndex, keys: &Vec<u32>) -> (r: Vec<&'a RoaringBitmap>)
    ensures
        id_sets(r@) == matched_sets(keys@, index.postings()),
{
    let mut out: Vec<&RoaringBitmap> = Vec::new();
    let mut i: usize = 0;
    assert(keys@.take(0) =~= seq![]);
    while i < keys.len()
        invariant
            i <= keys@.len(),
            id_sets(out@) == matched_sets(keys@.take(i as int), index.postings()),
        decreases keys.len() - i,
    {
        proof {
            lemma_matched_step(keys@, i as int, index.postings());
        }
        match index.get_bitmap(keys[i]) {
            Some(b) => {
                if !bitmap_is_empty(b) {
                    out.push(b);
                }
            },
            None => {},
        }
        assert(id_sets(out@) =~= matched_sets(keys@.take(i + 1), index.postings()));
        i += 1;
    }
    assert(keys@.take(i as int) =~= keys@);
    out
}

/// The non-empty bitmaps of a single-file index under `keys`, in key order.
fn legacy_bitmaps<'a>(index: &'a TokenIndex, keys: &Vec<u64>) -> (r: Vec<&'a RoaringBitmap>)
    ensures
        id_sets(r@) == matched_sets(keys@, index.postings()),
{
    let mut out: Vec<&RoaringBitmap> = Vec::new();
    let mut i: usize = 0;
    assert(keys@.take(0) =~= seq![]);
    while i < keys.len()
        invariant
            i <= keys@.len(),
            id_sets(out@) == matched_sets(keys@.take(i as int), index.postings()),
        decreases keys.len() - i,
    {
        proof {
            lemma_matched_step(keys@, i as int, index.postings());
        }
        match index.get_bitmap(keys[i]) {
            Some(b) => {
                if !bitmap_is_empty(b) {
                    out.push(b);
                }
            },
            None => {},
        }
        assert(id_sets(out@) =~= matched_sets(keys@.take(i + 1), index.postings()));
        i += 1;
    }
    assert(keys@.take(i as int) =~= keys@);
    out
}

/// Exact mode: case-sensitive identifier tokens, `_` and `-` kept.
pub fn query_exact(
    path_index: &PathIndex,
    exact_index: &ExactTokenIndex,
    query_str: &str,
    options: &QueryOptions,
) -> (r: QueryResult)
    requires
        path_index.wf(),
    ensures
        query_outcome(r, path_index.paths(), hashes(exact_tokens(query_str.spec_bytes())), exact_index.postings(), *options),
{
    let keys = tokenize_query_exact(query_str);
    let bitmaps = exact_bitmaps(exact_index, &keys);
    plan(&path_index.registry, &bitmaps, keys.len(), options)
}

/// Exact mode ignoring ASCII case, against the lowercased store.
pub fn query_exact_lower(
    path_index: &PathIndex,
    exact_lower_index: &ExactTokenIndex,
    query_str: &str,
    options: &QueryOptions,
) -> (r: QueryResult)
    requires
        path_index.wf(),
    ensures
        query_outcome(r, path_index.paths(), lower_hashes(exact_tokens(query_str.spec_bytes())), exact_lower_index.postings(), *options),
{
    let keys = tokenize_query_exact_lower(query_str);
    let bitmaps = exact_bitmaps(exact_lower_index, &keys);
    plan(&path_index.registry, &bitmaps, keys.len(), options)
}

/// Fuzzy mode: lowercased trigrams of the query.
pub fn query_fuzzy(
    path_index: &PathIndex,
    trigram_index: &TrigramIndex,
    query_str: &str,
    options: &QueryOptions,
) -> (r: QueryResult)
    requires
        path_index.wf(),
    ensures
        query_outcome(r, path_index.paths(), trigrams(query_str.spec_bytes()), trigram_index.postings(), *options),
{
    let keys = extract_query_trigrams(query_str);
    let bitmaps = trigram_bitmaps(trigram_index, &keys);
    plan(&path_index.registry, &bitmaps, keys.len(), options)
}

/// Word-token query against a single-file index.
pub fn query_with_options(index: &TokenIndex, query_str: &str, options: &QueryOptions) -> (r: QueryResult)
    requires
        index.wf(),
    ensures
        query_outcome(r, index.paths(), hashes(word_tokens(query_str.spec_bytes())), index.postings(), *options),
{
    let keys = tokenize_query(query_str);
    let bitmaps = legacy_bitmaps(index, &keys);
    plan(&index.registry, &bitmaps, keys.len(), options)
}

/// Word-token AND query against a single-file index, without filters or limit.
pub fn query(index: &TokenIndex, query_str: &str) -> (r: QueryResult)
    requires
        index.wf(),
    ensures
        query_outcome(
            r,
            index.paths(),
            hashes(word_tokens(query_str.spec_bytes())),
            index.postings(),
            (QueryOptions {
                limit: None,
                match_all: true,
                path_contains: None,
                glob_patterns: None,
                exclude: None,
            }),
        ),
{
    let options = QueryOptions {
        limit: None,
        match_all: true,
        path_contains: None,
        glob_patterns: None,
        exclude: None,
    };
    query_with_options(index, query_str, &options)
}

} // verus!
