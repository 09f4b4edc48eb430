//! The decisions of the indexing pipeline: which walked entries are indexed,
//! what a worker extracts from one file, and how the merger folds the
//! per-file records into the posting maps.

use crate::index::{
    with_id, ExactTokenIndex, IndexHeader, PathIndex, TokenIndex, TrigramIndex,
};
use crate::persistence::{extension_of, file_extension};
use crate::text::{dir_part, lemma_dir_part_of_join, lemma_dir_part_prefix, name_part, rsplit_once_char};
use crate::tokenizer::{
    exact_tokens, file_exact_lower_tokens, file_exact_tokens, fx_hash, hashes, looks_binary,
    lower_bytes, lower_hashes,
};
use crate::trigram::{file_trigrams, trigrams};
use vstd::prelude::*;

verus! {

/// Settings of a directory scan.
#[derive(Debug, Clone)]
pub struct ScanConfig {
    /// File extensions to index; empty means every file.
    pub extensions: Vec<String>,
    /// Names of files and directories to skip.
    pub exclude_patterns: Vec<String>,
    /// Largest file size to index, in bytes.
    pub max_file_size: u64,
    /// Files per batch in the single-file pipeline.
    pub batch_size: usize,
}

impl Default for ScanConfig {
    fn default() -> (r: ScanConfig)
        ensures
            r.extensions@.len() == 0,
            r.exclude_patterns@.len() == 5,
            r.exclude_patterns@[0]@ == ".git"@,
            r.exclude_patterns@[1]@ == "node_modules"@,
            r.exclude_patterns@[2]@ == "target"@,
            r.exclude_patterns@[3]@ == ".cache"@,
            r.exclude_patterns@[4]@ == "__pycache__"@,
            r.max_file_size == 10 * 1024 * 1024,
            r.batch_size == 1000,
    {
        let mut exclude_patterns: Vec<String> = Vec::new();
        exclude_patterns.push(".git".to_owned());
        exclude_patterns.push("node_modules".to_owned());
        exclude_patterns.push("target".to_owned());
        exclude_patterns.push(".cache".to_owned());
        exclude_patterns.push("__pycache__".to_owned());
        ScanConfig {
            extensions: Vec::new(),
            exclude_patterns,
            max_file_size: 10 * 1024 * 1024,
            batch_size: 1000,
        }
    }
}

/// `name` equals one of `patterns`.
pub open spec fn listed(patterns: Seq<String>, name: Seq<char>) -> bool {
    exists|j: int| 0 <= j < patterns.len() && #[trigger] patterns[j]@ == name
}

/// Whether an entry name equals one of the exclude patterns.
pub fn is_excluded_name(name: &str, patterns: &Vec<String>) -> (r: bool)
    ensures
        r == listed(patterns@, name@),
{
    let owned = name.to_owned();
    let mut j: usize = 0;
    while j < patterns.len()
        invariant
            j <= patterns@.len(),
            owned@ == name@,
            forall|m: int| 0 <= m < j ==> (#[trigger] patterns@[m])@ != name@,
        decreases patterns.len() - j,
    {
        if patterns[j] == owned {
            return true;
        }
        j += 1;
    }
    false
}

/// The `/`-separated components of a path, in order.
pub open spec fn components(p: Seq<char>) -> Seq<Seq<char>>
    decreases p.len(),
    via components_decreases
{
    if p.contains('/') && dir_part(p).len() > 0 {
        components(dir_part(p).drop_last()).push(name_part(p))
    } else {
        seq![p]
    }
}

#[via_fn]
proof fn components_decreases(p: Seq<char>) {
    lemma_dir_part_prefix(p);
}

/// Whether some `/`-separated component of `path` equals one of `patterns`.
pub fn should_exclude(path: &str, patterns: &Vec<String>) -> (r: bool)
    ensures
        r == exists|i: int|
            0 <= i < components(path@).len() && listed(patterns@, #[trigger] components(path@)[i]),
{
    let ghost whole = path@;
    let mut rest: &str = path;
    let ghost mut tail: Seq<Seq<char>> = seq![];
    assert(components(whole) =~= components(rest@) + tail);
    loop
        invariant
            whole == path@,
            components(whole) == components(rest@) + tail,
            forall|i: int| 0 <= i < tail.len() ==> !listed(patterns@, #[trigger] tail[i]),
        decreases rest@.len(),
    {
        match rsplit_once_char(rest, '/') {
            Some((before, after)) => {
                let ghost d = before@ + seq!['/'];
                proof {
                    assert(rest@ =~= d + after@);
                    lemma_dir_part_of_join(d, after@);
                    assert(d.drop_last() =~= before@);
                    assert(components(rest@) == components(before@).push(after@));
                }
                if is_excluded_name(after, patterns) {
                    proof {
                        let i = components(before@).len() as int;
                        assert(components(whole)[i] == after@);
                        assert(listed(patterns@, components(whole)[i]));
                    }
                    return true;
                }
                proof {
                    assert(components(before@).push(after@) + tail =~= components(before@) + (seq![after@] + tail));
                    tail = seq![after@] + tail;
                }
                rest = before;
            },
            None => {
                proof {
                    assert(components(rest@) == seq![rest@]);
                }
                let hit = is_excluded_name(rest, patterns);
                proof {
                    if hit {
                        assert(components(whole)[0] == rest@);
                        assert(listed(patterns@, components(whole)[0]));
                    } else {
                        assert forall|i: int| 0 <= i < components(whole).len() implies !listed(patterns@, #[trigger] components(whole)[i]) by {
                            if i > 0 {
                                assert(components(whole)[i] == tail[i - 1]);
                            }
                        }
                    }
                }
                return hit;
            },
        }
    }
}

/// Whether a walked file is indexed: its extension is allowed (any, when no
/// extensions are configured) and its size is within the limit.
pub fn accepts_file(name: &str, size: u64, config: &ScanConfig) -> (r: bool)
    ensures
        r == ((config.extensions@.len() == 0 || (extension_of(name@) matches Some(e) && listed(
            config.extensions@,
            e,
        ))) && size <= config.max_file_size),
{
    if size > config.max_file_size {
        return false;
    }
    if config.extensions.len() == 0 {
        return true;
    }
    match file_extension(name) {
        Some(e) => is_excluded_name(e, &config.extensions),
        None => false,
    }
}

/// What a worker extracts from one file.
#[derive(Debug, Clone)]
pub struct FileTokens {
    pub file_id: u32,
    /// Distinct case-sensitive identifier-token hashes.
    pub exact_tokens: Vec<u64>,
    /// Distinct lowercased identifier-token hashes.
    pub exact_lower_tokens: Vec<u64>,
    /// Distinct trigrams.
    pub trigrams: Vec<u32>,
}

/// The keys a file contributes to a store: none for binary content.
pub open spec fn content_keys<K>(content: Seq<u8>, keys: Seq<K>) -> Set<K> {
    if looks_binary(content) {
        Set::empty()
    } else {
        keys.to_set()
    }
}

/// Extract the record of file `file_id` from its content.
pub fn process_content(file_id: u32, content: &[u8]) -> (r: FileTokens)
    ensures
        r.file_id == file_id,
        r.exact_tokens@.no_duplicates(),
        r.exact_lower_tokens@.no_duplicates(),
        r.trigrams@.no_duplicates(),
        r.exact_tokens@.to_set() == content_keys(content@, hashes(exact_tokens(content@))),
        r.exact_lower_tokens@.to_set() == content_keys(content@, lower_hashes(exact_tokens(content@))),
        r.trigrams@.to_set() == content_keys(content@, trigrams(content@)),
{
    FileTokens {
        file_id,
        exact_tokens: file_exact_tokens(content),
        exact_lower_tokens: file_exact_lower_tokens(content),
        trigrams: file_trigrams(content),
    }
}

/// The record of a file that could not be read: its id stays allocated and
/// it contributes no key.
pub fn unreadable_file(file_id: u32) -> (r: FileTokens)
    ensures
        r.file_id == file_id,
        r.exact_tokens@.len() == 0,
        r.exact_lower_tokens@.len() == 0,
        r.trigrams@.len() == 0,
{
    FileTokens { file_id, exact_tokens: Vec::new(), exact_lower_tokens: Vec::new(), trigrams: Vec::new() }
}

/// A posting map after adding file `id` under every key of `keys`.
pub open spec fn merged<K>(p: Map<K, Set<u32>>, keys: Set<K>, id: u32) -> Map<K, Set<u32>> {
    Map::new(
        |k: K| p.contains_key(k) || keys.contains(k),
        |k: K|
            if keys.contains(k) {
                if p.contains_key(k) {
                    p[k].insert(id)
                } else {
                    Set::empty().insert(id)
                }
            } else {
                p[k]
            },
    )
}

proof fn lemma_merged_step<K>(p: Map<K, Set<u32>>, keys: Seq<K>, i: int, id: u32)
    requires
        0 <= i < keys.len(),
    ensures
        with_id(merged(p, keys.take(i).to_set(), id), keys[i], id) == merged(p, keys.take(i + 1).to_set(), id),
{
    assert(keys.take(i + 1) =~= keys.take(i).push(keys[i]));
    keys.take(i).lemma_push_to_set_commute(keys[i]);
    let s = keys.take(i).to_set();
    let a = with_id(merged(p, s, id), keys[i], id);
    let b = merged(p, s.insert(keys[i]), id);
    assert(a.dom() =~= b.dom());
    assert forall|k: K| a.contains_key(k) implies a[k] == b[k] by {
        if k == keys[i] {
            assert(a[k] =~= b[k]);
        }
    }
    assert(a =~= b);
}

proof fn lemma_merged_empty<K>(p: Map<K, Set<u32>>, keys: Seq<K>, id: u32)
    ensures
        merged(p, keys.take(0).to_set(), id) == p,
{
    assert(keys.take(0).to_set() =~= Set::<K>::empty());
    assert(merged(p, Set::<K>::empty(), id) =~= p);
}

/// Add file `file_id` under every key of `keys` in an exact store.
pub fn add_exact_keys(index: &mut ExactTokenIndex, file_id: u32, keys: &Vec<u64>)
    ensures
        final(index).header == old(index).header,
        final(index).postings() == merged(old(index).postings(), keys@.to_set(), file_id),
{
    let ghost initial = index.postings();
    proof {
        lemma_merged_empty(initial, keys@, file_id);
    }
    let mut i: usize = 0;
    while i < keys.len()
        invariant
            i <= keys@.len(),
            index.header == old(index).header,
            initial == old(index).postings(),
            index.postings() == merged(initial, keys@.take(i as int).to_set(), file_id),
        decreases keys.len() - i,
    {
        proof {
            lemma_merged_step(initial, keys@, i as int, file_id);
        }
        index.add_token(keys[i], file_id);
        i += 1;
    }
    assert(keys@.take(i as int) =~= keys@);
}

/// Add file `file_id` under every trigram of `keys`.
pub fn add_trigram_keys(index: &mut TrigramIndex, file_id: u32, keys: &Vec<u32>)
    ensures
        final(index).header == old(index).header,
        final(index).postings() == merged(old(index).postings(), keys@.to_set(), file_id),
{
    let ghost initial = index.postings();
    proof {
        lemma_merged_empty(initial, keys@, file_id);
    }
    let mut i: usize = 0;
    while i < keys.len()
        invariant
            i <= keys@.len(),
            index.header == old(index).header,
            initial == old(index).postings(),
            index.postings() == merged(initial, keys@.take(i as int).to_set(), file_id),
        decreases keys.len() - i,
    {
        proof {
            lemma_merged_step(initial, keys@, i as int, file_id);
        }
        index.add_trigram(keys[i], file_id);
        i += 1;
    }
    assert(keys@.take(i as int) =~= keys@);
}

/// Add file `file_id` under every key of `keys` in a single-file index.
pub fn add_legacy_keys(index: &mut TokenIndex, file_id: u32, keys: &Vec<u64>)
    ensures
        final(index).registry == old(index).registry,
        final(index).postings() == merged(old(index).postings(), keys@.to_set(), file_id),
{
    let ghost initial = index.postings();
    proof {
        lemma_merged_empty(initial, keys@, file_id);
    }
    let mut i: usize = 0;
    while i < keys.len()
        invariant
            i <= keys@.len(),
            index.registry == old(index).registry,
            initial == old(index).postings(),
            index.postings() == merged(initial, keys@.take(i as int).to_set(), file_id),
        decreases keys.len() - i,
    {
        proof {
            lemma_merged_step(initial, keys@, i as int, file_id);
        }
        index.add_token(keys[i], file_id);
        i += 1;
    }
    assert(keys@.take(i as int) =~= keys@);
}

/// Every file id in the posting map `p` is below `n`.
pub open spec fn ids_below<K>(p: Map<K, Set<u32>>, n: int) -> bool {
    forall|k: K, x: u32| p.contains_key(k) && #[trigger] p[k].contains(x) ==> (x as int) < n
}

proof fn lemma_merged_below<K>(p: Map<K, Set<u32>>, keys: Set<K>, id: u32, n: int)
    requires
        ids_below(p, n),
        (id as int) < n,
    ensures
        ids_below(merged(p, keys, id), n),
{
    let m = merged(p, keys, id);
    assert forall|k: K, x: u32| m.contains_key(k) && #[trigger] m[k].contains(x) implies (x as int) < n by {
        if x != id && p.contains_key(k) {
            assert(p[k].contains(x));
        }
    }
}

/// A binary file keeps its id but is indexed nowhere: merging its record
/// leaves a posting map as it was, and as every id there is below the new
/// file's id, no posting holds that id.
pub proof fn lemma_binary_file_unindexed<K>(p: Map<K, Set<u32>>, content: Seq<u8>, keys: Seq<K>, id: u32)
    requires
        looks_binary(content),
        ids_below(p, id as int),
    ensures
        merged(p, content_keys(content, keys), id) == p,
        forall|k: K| #[trigger] p.contains_key(k) ==> !p[k].contains(id),
{
    let m = merged(p, content_keys(content, keys), id);
    assert(m.dom() =~= p.dom());
    assert forall|k: K| m.contains_key(k) implies m[k] == p[k] by {}
    assert(m =~= p);
}

/// The four structures of one run under construction: the coordinator
/// registers paths, the merger folds in the workers' records.
pub struct IndexBuilder {
    header: IndexHeader,
    paths: PathIndex,
    exact: ExactTokenIndex,
    exact_lower: ExactTokenIndex,
    trigram: TrigramIndex,
}

impl IndexBuilder {
    /// The header every structure of the run carries.
    pub closed spec fn header(&self) -> IndexHeader {
        self.header
    }

    pub closed spec fn paths(&self) -> Seq<Seq<char>> {
        self.paths.paths()
    }

    pub closed spec fn exact_postings(&self) -> Map<u64, Set<u32>> {
        self.exact.postings()
    }

    pub closed spec fn exact_lower_postings(&self) -> Map<u64, Set<u32>> {
        self.exact_lower.postings()
    }

    pub closed spec fn trigram_postings(&self) -> Map<u32, Set<u32>> {
        self.trigram.postings()
    }

    pub closed spec fn wf(&self) -> bool {
        &&& ids_below(self.exact.postings(), self.paths.paths().len() as int)
        &&& ids_below(self.exact_lower.postings(), self.paths.paths().len() as int)
        &&& ids_below(self.trigram.postings(), self.paths.paths().len() as int)
        &&& self.paths.wf()
        &&& self.paths.header == self.header
        &&& self.exact.header == self.header
        &&& self.exact_lower.header == self.header
        &&& self.trigram.header == self.header
    }

    pub fn new(header: IndexHeader, root_path: String) -> (r: IndexBuilder)
        ensures
            r.wf(),
            r.header() == header,
            r.paths() == Seq::<Seq<char>>::empty(),
            r.exact_postings() == Map::<u64, Set<u32>>::empty(),
            r.exact_lower_postings() == Map::<u64, Set<u32>>::empty(),
            r.trigram_postings() == Map::<u32, Set<u32>>::empty(),
    {
        IndexBuilder {
            header,
            paths: PathIndex::new(header, root_path),
            exact: ExactTokenIndex::new(header),
            exact_lower: ExactTokenIndex::new(header),
            trigram: TrigramIndex::new(header),
        }
    }

    /// Number of registered files.
    pub fn file_count(&self) -> (r: usize)
        requires
            self.wf(),
        ensures
            r == self.paths().len(),
    {
        self.paths.file_count()
    }

    /// Assign the next file id to `path`.
    pub fn register(&mut self, path: &str) -> (r: u32)
        requires
            old(self).wf(),
            old(self).paths().len() < u32::MAX,
        ensures
            final(self).wf(),
            final(self).header() == old(self).header(),
            r == old(self).paths().len(),
            final(self).paths() == old(self).paths().push(path@),
            final(self).exact_postings() == old(self).exact_postings(),
            final(self).exact_lower_postings() == old(self).exact_lower_postings(),
            final(self).trigram_postings() == old(self).trigram_postings(),
    {
        self.paths.register_file(path)
    }

    /// Fold one worker record into the three posting maps.
    pub fn merge(&mut self, record: &FileTokens)
        requires
            old(self).wf(),
            (record.file_id as int) < old(self).paths().len(),
        ensures
            final(self).wf(),
            final(self).header() == old(self).header(),
            final(self).paths() == old(self).paths(),
            final(self).exact_postings() == merged(old(self).exact_postings(), record.exact_tokens@.to_set(), record.file_id),
            final(self).exact_lower_postings() == merged(old(self).exact_lower_postings(), record.exact_lower_tokens@.to_set(), record.file_id),
            final(self).trigram_postings() == merged(old(self).trigram_postings(), record.trigrams@.to_set(), record.file_id),
    {
        add_exact_keys(&mut self.exact, record.file_id, &record.exact_tokens);
        add_exact_keys(&mut self.exact_lower, record.file_id, &record.exact_lower_tokens);
        add_trigram_keys(&mut self.trigram, record.file_id, &record.trigrams);
        proof {
            let n = self.paths.paths().len() as int;
            lemma_merged_below(old(self).exact.postings(), record.exact_tokens@.to_set(), record.file_id, n);
            lemma_merged_below(old(self).exact_lower.postings(), record.exact_lower_tokens@.to_set(), record.file_id, n);
            lemma_merged_below(old(self).trigram.postings(), record.trigrams@.to_set(), record.file_id, n);
        }
    }

    /// The finished structures: paths, exact, lowercased exact, trigram.
    /// All four carry the builder's header, so files saved from them share one index id.
    pub fn finish(self) -> (r: (PathIndex, ExactTokenIndex, ExactTokenIndex, TrigramIndex))
        requires
            self.wf(),
        ensures
            r.0.wf(),
            ids_below(r.1.postings(), r.0.paths().len() as int),
            ids_below(r.2.postings(), r.0.paths().len() as int),
            ids_below(r.3.postings(), r.0.paths().len() as int),
            r.0.header == self.header(),
            r.1.header == self.header(),
            r.2.header == self.header(),
            r.3.header == self.header(),
            r.0.paths() == self.paths(),
            r.1.postings() == self.exact_postings(),
            r.2.postings() == self.exact_lower_postings(),
            r.3.postings() == self.trigram_postings(),
    {
        (self.paths, self.exact, self.exact_lower, self.trigram)
    }
}

/// Every token extracted from a file is indexed under its hash: after the
/// file's keys are merged, its id is in the posting of each of its tokens, in
/// the exact store under the token's hash, in the lowercased store under the
/// hash of the lowercased token, and in the trigram store under each trigram.
pub proof fn lemma_tokens_indexed(
    exact: Map<u64, Set<u32>>,
    lower: Map<u64, Set<u32>>,
    tri: Map<u32, Set<u32>>,
    content: Seq<u8>,
    id: u32,
)
    requires
        !looks_binary(content),
    ensures
        forall|t: Seq<u8>|
            #[trigger] exact_tokens(content).contains(t) ==> merged(
                exact,
                content_keys(content, hashes(exact_tokens(content))),
                id,
            )[fx_hash(t)].contains(id) && merged(
                lower,
                content_keys(content, lower_hashes(exact_tokens(content))),
                id,
            )[fx_hash(lower_bytes(t))].contains(id),
        forall|g: u32|
            #[trigger] trigrams(content).contains(g) ==> merged(
                tri,
                content_keys(content, trigrams(content)),
                id,
            )[g].contains(id),
{
    let ts = exact_tokens(content);
    assert forall|t: Seq<u8>| #[trigger] ts.contains(t) implies merged(
        exact,
        content_keys(content, hashes(ts)),
        id,
    )[fx_hash(t)].contains(id) && merged(lower, content_keys(content, lower_hashes(ts)), id)[fx_hash(
        lower_bytes(t),
    )].contains(id) by {
        let i = choose|i: int| 0 <= i < ts.len() && ts[i] == t;
        assert(hashes(ts)[i] == fx_hash(t));
        assert(hashes(ts).to_set().contains(fx_hash(t)));
        assert(lower_hashes(ts)[i] == fx_hash(lower_bytes(t)));
        assert(lower_hashes(ts).to_set().contains(fx_hash(lower_bytes(t))));
    }
    assert forall|g: u32| #[trigger] trigrams(content).contains(g) implies merged(
        tri,
        content_keys(content, trigrams(content)),
        id,
    )[g].contains(id) by {
        assert(trigrams(content).to_set().contains(g));
    }
}

/// For a token already in lowercase, a file that holds it is in both the
/// exact and the lowercased posting of its hash: the lowercased store finds
/// every file the exact store finds for a lowercase query token.
pub proof fn lemma_lower_covers_exact(
    exact: Map<u64, Set<u32>>,
    lower: Map<u64, Set<u32>>,
    content: Seq<u8>,
    id: u32,
    t: Seq<u8>,
)
    requires
        !looks_binary(content),
        exact_tokens(content).contains(t),
        lower_bytes(t) == t,
    ensures
        merged(exact, content_keys(content, hashes(exact_tokens(content))), id)[fx_hash(t)].contains(id),
        merged(lower, content_keys(content, lower_hashes(exact_tokens(content))), id)[fx_hash(t)].contains(id),
{
    lemma_tokens_indexed(exact, lower, Map::empty(), content, id);
}

} // verus!
