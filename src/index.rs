//! The index structures: the shared header, the path registry and the
//! posting maps from keys to bitmaps of file ids.

use crate::bitmap::{bitmap_ids, bitmap_insert, bitmap_new};
use crate::text::{
    dir_part, is_dir_form, join_path, lemma_dir_part_of_join, lemma_dir_part_prefix, name_part,
    split_path,
};
use crate::error::TokenizerError;
use crate::tokenizer::{fx_hash, hash_token};
use roaring::RoaringBitmap;
use std::collections::HashMap;
use vstd::prelude::*;
use vstd::utf8::encode_utf8;

verus! {

broadcast use vstd::std_specs::hash::group_hash_axioms;

/// The number of directories first seen along `ids`: the positions whose
/// value does not occur earlier.
pub open spec fn fresh_count(ids: Seq<u32>) -> nat
    decreases ids.len(),
{
    if ids.len() == 0 {
        0
    } else {
        fresh_count(ids.drop_last()) + if ids.drop_last().contains(ids.last()) {
            0nat
        } else {
            1nat
        }
    }
}

pub proof fn lemma_fresh_count(ids: Seq<u32>)
    ensures
        fresh_count(ids) <= ids.len(),
        fresh_count(ids) == ids.len() <==> ids.no_duplicates(),
    decreases ids.len(),
{
    if ids.len() > 0 {
        let s = ids.drop_last();
        lemma_fresh_count(s);
        if ids.no_duplicates() {
            assert(s.no_duplicates());
            assert(!s.contains(ids.last())) by {
                if s.contains(ids.last()) {
                    let i = choose|i: int| 0 <= i < s.len() && s[i] == ids.last();
                    assert(ids[i] == ids[ids.len() - 1]);
                }
            }
        }
        if fresh_count(ids) == ids.len() {
            assert forall|i: int, j: int|
                0 <= i < ids.len() && 0 <= j < ids.len() && i != j implies ids[i] != ids[j] by {
                if j == ids.len() - 1 {
                    assert(s[i] == ids[i]);
                } else if i == ids.len() - 1 {
                    assert(s[j] == ids[j]);
                } else {
                    assert(s[i] == ids[i] && s[j] == ids[j]);
                }
            }
        }
    }
}

/// The distinct directory parts of `paths`, in order of first appearance.
pub open spec fn first_dirs(paths: Seq<Seq<char>>) -> Seq<Seq<char>>
    decreases paths.len(),
{
    if paths.len() == 0 {
        seq![]
    } else {
        let before = first_dirs(paths.drop_last());
        let d = dir_part(paths.last());
        if before.contains(d) {
            before
        } else {
            before.push(d)
        }
    }
}

/// Dense file ids with deduplicated directories. A file is stored as the index
/// of its directory part and its file name; its path is the two joined.
pub struct PathRegistry {
    directories: Vec<String>,
    files: Vec<(u32, String)>,
    /// Hash of a directory's bytes to the ids of the directories with that hash.
    dir_lookup: HashMap<u64, Vec<u32>>,
}

impl PathRegistry {
    /// The registered directories, in order of first appearance.
    pub closed spec fn dirs(&self) -> Seq<Seq<char>> {
        self.directories@.map_values(|d: String| d@)
    }

    /// The directory id of each file.
    pub closed spec fn dir_ids(&self) -> Seq<u32> {
        self.files@.map_values(|f: (u32, String)| f.0)
    }

    /// The file name of each file.
    pub closed spec fn names(&self) -> Seq<Seq<char>> {
        self.files@.map_values(|f: (u32, String)| f.1@)
    }

    /// The full path of each file, indexed by file id.
    pub open spec fn paths(&self) -> Seq<Seq<char>> {
        Seq::new(self.names().len(), |i: int| self.dirs()[self.dir_ids()[i] as int] + self.names()[i])
    }

    pub closed spec fn lookup_ok(&self) -> bool {
        &&& forall|d: int|
            0 <= d < self.directories@.len() ==> {
                let k = fx_hash(#[trigger] encode_utf8(self.directories@[d]@));
                &&& self.dir_lookup@.contains_key(k)
                &&& self.dir_lookup@[k]@.contains(d as u32)
            }
        &&& forall|k: u64, j: int|
            #![trigger self.dir_lookup@[k]@[j]]
            self.dir_lookup@.contains_key(k) && 0 <= j < self.dir_lookup@[k]@.len()
                ==> self.dir_lookup@[k]@[j] < self.directories@.len()
    }

    pub open spec fn wf(&self) -> bool {
        &&& self.dir_ids().len() == self.names().len()
        &&& self.dirs().len() <= self.names().len() <= u32::MAX
        &&& self.dirs().no_duplicates()
        &&& forall|d: int| 0 <= d < self.dirs().len() ==> is_dir_form(#[trigger] self.dirs()[d])
        &&& forall|i: int|
            0 <= i < self.dir_ids().len() ==> (#[trigger] self.dir_ids()[i] as int) < self.dirs().len()
        &&& forall|i: int| 0 <= i < self.names().len() ==> !(#[trigger] self.names()[i]).contains('/')
        &&& forall|d: int| 0 <= d < self.dirs().len() ==> #[trigger] self.dir_ids().contains(d as u32)
        &&& self.dirs().len() == fresh_count(self.dir_ids())
        &&& self.dirs() == first_dirs(self.paths())
        &&& self.lookup_ok()
    }

    pub fn new() -> (r: PathRegistry)
        ensures
            r.wf(),
            r.paths() == Seq::<Seq<char>>::empty(),
            r.dirs() == Seq::<Seq<char>>::empty(),
    {
        let r = PathRegistry { directories: Vec::new(), files: Vec::new(), dir_lookup: HashMap::new() };
        assert(r.paths() =~= Seq::<Seq<char>>::empty());
        assert(r.dirs() =~= Seq::<Seq<char>>::empty());
        r
    }

    /// The id of directory `dir`, whose bytes hash to `key`, if it is registered.
    fn find_dir(&self, dir: &String, key: u64) -> (r: Option<u32>)
        requires
            self.wf(),
            key == fx_hash(encode_utf8(dir@)),
        ensures
            r matches Some(d) ==> (d as int) < self.dirs().len() && self.dirs()[d as int] == dir@,
            r is None ==> !self.dirs().contains(dir@),
    {
        match self.dir_lookup.get(&key) {
            Some(bucket) => {
                let mut j: usize = 0;
                while j < bucket.len()
                    invariant
                        self.wf(),
                        self.dir_lookup@.contains_key(key),
                        self.dir_lookup@[key] == *bucket,
                        j <= bucket@.len(),
                        forall|m: int| 0 <= m < j ==> self.dirs()[bucket@[m] as int] != dir@,
                    decreases bucket.len() - j,
                {
                    let d = bucket[j];
                    assert(self.dir_lookup@[key]@[j as int] == d);
                    if self.directories[d as usize] == *dir {
                        return Some(d);
                    }
                    j += 1;
                }
                proof {
                    if self.dirs().contains(dir@) {
                        let d = choose|d: int| 0 <= d < self.dirs().len() && self.dirs()[d] == dir@;
                        assert(self.directories@[d]@ == dir@);
                        assert(self.dir_lookup@[key]@.contains(d as u32));
                        let m = choose|m: int| 0 <= m < bucket@.len() && bucket@[m] == d as u32;
                        assert(self.dirs()[bucket@[m] as int] == dir@);
                    }
                }
                None
            },
            None => {
                proof {
                    if self.dirs().contains(dir@) {
                        let d = choose|d: int| 0 <= d < self.dirs().len() && self.dirs()[d] == dir@;
                        assert(self.directories@[d]@ == dir@);
                    }
                }
                None
            },
        }
    }

    /// Register a path and return its file id, the number of files registered before it.
    pub fn register(&mut self, path: &str) -> (r: u32)
        requires
            old(self).wf(),
            old(self).paths().len() < u32::MAX,
        ensures
            final(self).wf(),
            r == old(self).paths().len(),
            final(self).paths() == old(self).paths().push(path@),
            final(self).dirs() == if old(self).dirs().contains(dir_part(path@)) {
                old(self).dirs()
            } else {
                old(self).dirs().push(dir_part(path@))
            },
    {
        let ghost old_self = *self;
        proof {
            lemma_fresh_count(self.dir_ids());
            lemma_dir_part_prefix(path@);
        }
        let (dir, name) = split_path(path);
        let key = hash_token(dir.as_str().as_bytes());
        let found = self.find_dir(&dir, key);
        let dir_id = match found {
            Some(d) => d,
            None => {
                let d = self.directories.len() as u32;
                self.directories.push(dir);
                let bucket = match self.dir_lookup.remove(&key) {
                    Some(b) => {
                        let mut b = b;
                        b.push(d);
                        b
                    },
                    None => vec![d],
                };
                self.dir_lookup.insert(key, bucket);
                proof {
                    assert(self.dirs() =~= old_self.dirs().push(dir_part(path@)));
                    assert forall|e: int|
                        0 <= e < self.directories@.len() implies {
                        let k = fx_hash(encode_utf8(#[trigger] self.directories@[e]@));
                        &&& self.dir_lookup@.contains_key(k)
                        &&& self.dir_lookup@[k]@.contains(e as u32)
                    } by {
                        let k = fx_hash(encode_utf8(self.directories@[e]@));
                        if e < old_self.directories@.len() {
                            assert(old_self.directories@[e] == self.directories@[e]);
                            assert(old_self.dir_lookup@[k]@.contains(e as u32));
                            if k == key {
                                let m = choose|m: int|
                                    0 <= m < old_self.dir_lookup@[k]@.len()
                                        && old_self.dir_lookup@[k]@[m] == e as u32;
                                assert(self.dir_lookup@[k]@[m] == e as u32);
                            }
                        } else {
                            assert(self.dir_lookup@[key]@.last() == d);
                        }
                    }
                    assert forall|k: u64, j: int|
                        #![trigger self.dir_lookup@[k]@[j]]
                        self.dir_lookup@.contains_key(k) && 0 <= j < self.dir_lookup@[k]@.len()
                            implies self.dir_lookup@[k]@[j] < self.directories@.len() by {
                        if k != key {
                            assert(old_self.dir_lookup@[k]@[j] < old_self.directories@.len());
                        } else if j < self.dir_lookup@[k]@.len() - 1 {
                            assert(old_self.dir_lookup@[k]@[j] < old_self.directories@.len());
                        }
                    }
                    assert(self.lookup_ok());
                }
                d
            },
        };
        let file_id = self.files.len() as u32;
        self.files.push((dir_id, name));
        proof {
            let ids0 = old_self.dir_ids();
            assert(self.dir_ids() =~= ids0.push(dir_id));
            assert(self.names() =~= old_self.names().push(name_part(path@)));
            assert(self.dir_ids().drop_last() =~= ids0);
            if found is None {
                assert(!ids0.contains(dir_id)) by {
                    if ids0.contains(dir_id) {
                        let i = choose|i: int| 0 <= i < ids0.len() && ids0[i] == dir_id;
                    }
                }
            } else {
                assert(ids0.contains(dir_id));
            }
            assert forall|e: int| 0 <= e < self.dirs().len() implies #[trigger] self.dir_ids().contains(e as u32) by {
                if e < old_self.dirs().len() {
                    assert(ids0.contains(e as u32));
                    let i = choose|i: int| 0 <= i < ids0.len() && ids0[i] == e as u32;
                    assert(self.dir_ids()[i] == e as u32);
                } else {
                    assert(self.dir_ids()[ids0.len() as int] == e as u32);
                }
            }
            lemma_dir_part_of_join(dir_part(path@), name_part(path@));
            assert(self.paths() =~= old_self.paths().push(path@));
            assert(self.paths().drop_last() =~= old_self.paths());
        }
        file_id
    }
}


impl PathRegistry {
    /// The full path of file `file_id`, or `None` for an unknown id.
    pub fn path(&self, file_id: u32) -> (r: Option<String>)
        requires
            self.wf(),
        ensures
            r is Some <==> (file_id as int) < self.paths().len(),
            r matches Some(p) ==> p@ == self.paths()[file_id as int],
    {
        if (file_id as usize) < self.files.len() {
            let entry = &self.files[file_id as usize];
            assert(self.dir_ids()[file_id as int] == entry.0);
            Some(join_path(&self.directories[entry.0 as usize], &entry.1))
        } else {
            None
        }
    }

    /// The file name of file `file_id`, or `None` for an unknown id.
    pub fn file_name(&self, file_id: u32) -> (r: Option<&String>)
        requires
            self.wf(),
        ensures
            r is Some <==> (file_id as int) < self.paths().len(),
            r matches Some(n) ==> n@ == self.names()[file_id as int] && n@ == name_part(
                self.paths()[file_id as int],
            ),
    {
        if (file_id as usize) < self.files.len() {
            proof {
                self.lemma_path_parts(file_id as int);
            }
            Some(&self.files[file_id as usize].1)
        } else {
            None
        }
    }

    /// Number of registered files.
    pub fn count(&self) -> (r: usize)
        requires
            self.wf(),
        ensures
            r == self.paths().len(),
    {
        self.files.len()
    }

    /// Number of distinct directories.
    pub fn directory_count(&self) -> (r: usize)
        requires
            self.wf(),
        ensures
            r == self.dirs().len(),
    {
        self.directories.len()
    }

    /// The registered directories, in order of first appearance.
    pub fn directories(&self) -> (r: &Vec<String>)
        ensures
            r@.map_values(|d: String| d@) == self.dirs(),
    {
        &self.directories
    }

    /// Each file as its directory id and file name, indexed by file id.
    pub fn files(&self) -> (r: &Vec<(u32, String)>)
        ensures
            r@.map_values(|f: (u32, String)| f.0) == self.dir_ids(),
            r@.map_values(|f: (u32, String)| f.1@) == self.names(),
    {
        &self.files
    }

    /// The directory part and file name of a registered path are what the registry stores.
    pub proof fn lemma_path_parts(&self, i: int)
        requires
            self.wf(),
            0 <= i < self.paths().len(),
        ensures
            dir_part(self.paths()[i]) == self.dirs()[self.dir_ids()[i] as int],
            name_part(self.paths()[i]) == self.names()[i],
    {
        assert(is_dir_form(self.dirs()[self.dir_ids()[i] as int]));
        assert(!self.names()[i].contains('/'));
        lemma_dir_part_of_join(self.dirs()[self.dir_ids()[i] as int], self.names()[i]);
    }

    /// Every file is in a directory, so there are never more directories than
    /// files; there are as many exactly when no two files share a directory.
    pub proof fn lemma_directory_count(&self)
        requires
            self.wf(),
        ensures
            self.dirs().len() <= self.paths().len(),
            self.dirs().len() == self.paths().len() <==> forall|i: int, j: int|
                0 <= i < self.paths().len() && 0 <= j < self.paths().len() && i != j
                    ==> dir_part(#[trigger] self.paths()[i]) != dir_part(#[trigger] self.paths()[j]),
    {
        lemma_fresh_count(self.dir_ids());
        let ids = self.dir_ids();
        let n = self.paths().len();
        if self.dirs().len() == n {
            assert forall|i: int, j: int|
                0 <= i < n && 0 <= j < n && i != j implies dir_part(#[trigger] self.paths()[i])
                != dir_part(#[trigger] self.paths()[j]) by {
                self.lemma_path_parts(i);
                self.lemma_path_parts(j);
                assert(ids[i] != ids[j]);
            }
        }
        if forall|i: int, j: int|
            0 <= i < n && 0 <= j < n && i != j ==> dir_part(#[trigger] self.paths()[i]) != dir_part(
                #[trigger] self.paths()[j],
            ) {
            assert forall|i: int, j: int|
                0 <= i < ids.len() && 0 <= j < ids.len() && i != j implies ids[i] != ids[j] by {
                self.lemma_path_parts(i);
                self.lemma_path_parts(j);
                assert(dir_part(self.paths()[i]) != dir_part(self.paths()[j]));
            }
        }
    }
}

/// The directory list is determined by the paths: two registries with the
/// same paths have the same directories.
pub proof fn lemma_dirs_follow_paths(a: PathRegistry, b: PathRegistry)
    requires
        a.wf(),
        b.wf(),
        a.paths() == b.paths(),
    ensures
        a.dirs() == b.dirs(),
{
}

/// Loading what was saved gives the index back: the directories and files an
/// index hands out pass the checks of `from_parts`, and an index built from
/// them has the same paths and the same directories.
pub proof fn lemma_reload(
    ix: PathIndex,
    directories: Seq<String>,
    files: Seq<(u32, String)>,
    loaded: PathIndex,
)
    requires
        ix.wf(),
        loaded.wf(),
        directories.map_values(|d: String| d@) == ix.dirs(),
        files.len() == ix.paths().len(),
        forall|i: int| 0 <= i < files.len() ==> ((#[trigger] files[i]).0 as int) < ix.dirs().len(),
        forall|i: int|
            0 <= i < files.len() ==> ix.dirs()[(#[trigger] files[i]).0 as int] + files[i].1@
                == ix.paths()[i],
        loaded.paths() == Seq::new(
            files.len(),
            |i: int| directories[files[i].0 as int]@ + files[i].1@,
        ),
    ensures
        files.len() <= u32::MAX,
        forall|i: int| 0 <= i < files.len() ==> (#[trigger] files[i].0 as int) < directories.len(),
        loaded.paths() == ix.paths(),
        loaded.dirs() == ix.dirs(),
{
    ix.lemma_parts_round_trip(directories, files);
    lemma_dirs_follow_paths(loaded.registry, ix.registry);
}

/// A path reads back unchanged: once `register(p)` has returned `id`, the
/// path of `id` is `p`.
pub proof fn lemma_registered_path(before: PathRegistry, after: PathRegistry, p: Seq<char>, id: u32)
    requires
        after.paths() == before.paths().push(p),
        id as int == before.paths().len(),
    ensures
        after.paths()[id as int] == p,
{
}


impl PathRegistry {
    /// Rebuild a registry from stored directories and files, registering the
    /// joined path of each file in order. Fails when a file names a directory
    /// id that is out of range, or when there are too many files for 32-bit ids.
    pub fn from_parts(directories: &Vec<String>, files: &Vec<(u32, String)>) -> (r: Option<
        PathRegistry,
    >)
        ensures
            r is Some <==> files@.len() <= u32::MAX && forall|i: int|
                0 <= i < files@.len() ==> (#[trigger] files@[i].0 as int) < directories@.len(),
            r matches Some(reg) ==> reg.wf() && reg.paths() == Seq::new(
                files@.len(),
                |i: int| directories@[files@[i].0 as int]@ + files@[i].1@,
            ),
    {
        if files.len() > 4294967295 {
            return None;
        }
        let mut reg = PathRegistry::new();
        let mut i: usize = 0;
        while i < files.len()
            invariant
                reg.wf(),
                i <= files@.len(),
                files@.len() <= u32::MAX,
                forall|m: int| 0 <= m < i ==> (#[trigger] files@[m].0 as int) < directories@.len(),
                reg.paths() == Seq::new(
                    i as nat,
                    |m: int| directories@[files@[m].0 as int]@ + files@[m].1@,
                ),
            decreases files.len() - i,
        {
            let entry = &files[i];
            if entry.0 as usize >= directories.len() {
                return None;
            }
            let path = join_path(&directories[entry.0 as usize], &entry.1);
            reg.register(path.as_str());
            i += 1;
            assert(reg.paths() =~= Seq::new(
                i as nat,
                |m: int| directories@[files@[m].0 as int]@ + files@[m].1@,
            ));
        }
        assert(reg.paths() =~= Seq::new(
            files@.len(),
            |m: int| directories@[files@[m].0 as int]@ + files@[m].1@,
        ));
        Some(reg)
    }
}

/// Version of the split index format.
pub const FORMAT_VERSION: u16 = 3;

/// Shared by every file of one index run.
#[derive(Debug, Clone, Copy, PartialEq, Eq)]
pub struct IndexHeader {
    /// Format version.
    pub version: u16,
    /// Identifier shared by all files of one run.
    pub index_id: [u8; 16],
    /// Creation time, in seconds since the Unix epoch.
    pub created_at: u64,
}

/// Relies on SystemTime::now and SystemTime::duration_since(UNIX_EPOCH): the
/// time since the epoch as whole seconds and the nanoseconds beyond them, or
/// `None` when the clock reads earlier than the epoch.
#[verifier::external_body]
fn time_since_epoch() -> (r: Option<(u64, u32)>)
    ensures
        r matches Some(t) ==> t.1 < 1_000_000_000,
{
    match std::time::SystemTime::now().duration_since(std::time::UNIX_EPOCH) {
        Ok(d) => Some((d.as_secs(), d.subsec_nanos())),
        Err(_) => None,
    }
}

/// Relies on RandomState::new, which seeds every instance afresh, through
/// BuildHasher::hash_one: a value that varies from call to call. Nothing is
/// promised of it.
#[verifier::external_body]
fn fresh_entropy() -> (r: u64) {
    std::hash::BuildHasher::hash_one(&std::collections::hash_map::RandomState::new(), 0u8)
}

/// The little-endian bytes of `x`.
pub open spec fn le_bytes(x: u64) -> Seq<u8> {
    Seq::new(8, |k: int| ((x as int / pow256(k)) % 256) as u8)
}

pub open spec fn pow256(k: int) -> int
    decreases k,
{
    if k <= 0 {
        1
    } else {
        256 * pow256(k - 1)
    }
}

/// An index id: the bytes of the seconds, then those of the nanoseconds and
/// entropy mixed into one word.
pub fn index_id_from(secs: u64, nanos: u32, entropy: u64) -> (r: [u8; 16])
    ensures
        r@ == le_bytes(secs) + le_bytes((nanos as u64) ^ entropy),
{
    let low = secs;
    let high = (nanos as u64) ^ entropy;
    let mut id: [u8; 16] = [0u8; 16];
    let mut k: usize = 0;
    let mut a: u64 = low;
    let mut b: u64 = high;
    while k < 8
        invariant
            k <= 8,
            a as int == low as int / pow256(k as int),
            b as int == high as int / pow256(k as int),
            forall|j: int| 0 <= j < k ==> id@[j] == ((low as int / pow256(j)) % 256) as u8,
            forall|j: int| 0 <= j < k ==> id@[8 + j] == ((high as int / pow256(j)) % 256) as u8,
        decreases 8 - k,
    {
        id[k] = (a % 256) as u8;
        id[8 + k] = (b % 256) as u8;
        proof {
            assert(pow256(k + 1) == 256 * pow256(k as int));
            lemma_pow256_pos(k as int);
            vstd::arithmetic::div_mod::lemma_div_denominator(low as int, pow256(k as int), 256);
            vstd::arithmetic::div_mod::lemma_div_denominator(high as int, pow256(k as int), 256);
            vstd::arithmetic::mul::lemma_mul_is_commutative(256, pow256(k as int));
        }
        a = a / 256;
        b = b / 256;
        k += 1;
    }
    assert(id@ =~= le_bytes(secs) + le_bytes(high));
    id
}

proof fn lemma_pow256_pos(k: int)
    ensures
        pow256(k) > 0,
    decreases k,
{
    if k > 0 {
        lemma_pow256_pos(k - 1);
    }
}

impl IndexHeader {
    /// A header of the current version with a fresh id and the current time.
    pub fn new() -> (r: IndexHeader)
        ensures
            r.version == FORMAT_VERSION,
            r.index_id@.subrange(0, 8) == le_bytes(r.created_at),
    {
        let (secs, nanos) = match time_since_epoch() {
            Some(t) => t,
            None => (0, 0),
        };
        IndexHeader {
            version: FORMAT_VERSION,
            index_id: index_id_from(secs, nanos, fresh_entropy()),
            created_at: secs,
        }
    }
}


/// The id sets of a posting map.
pub open spec fn posting_sets<K>(m: Map<K, RoaringBitmap>) -> Map<K, Set<u32>> {
    m.map_values(|b: RoaringBitmap| bitmap_ids(b))
}

/// A posting map after adding file `id` under key `k`.
pub open spec fn with_id<K>(p: Map<K, Set<u32>>, k: K, id: u32) -> Map<K, Set<u32>> {
    p.insert(
        k,
        if p.contains_key(k) {
            p[k].insert(id)
        } else {
            Set::empty().insert(id)
        },
    )
}

/// Index of file paths shared by the posting stores of one run.
pub struct PathIndex {
    pub header: IndexHeader,
    /// The directory that was indexed.
    pub root_path: String,
    /// The files and directories; its invariant holds whatever a caller does with it.
    pub registry: PathRegistry,
}

impl PathIndex {
    /// The full path of each file, indexed by file id.
    pub open spec fn paths(&self) -> Seq<Seq<char>> {
        self.registry.paths()
    }

    /// The registered directories.
    pub open spec fn dirs(&self) -> Seq<Seq<char>> {
        self.registry.dirs()
    }

    pub open spec fn wf(&self) -> bool {
        self.registry.wf()
    }

    pub fn new(header: IndexHeader, root_path: String) -> (r: PathIndex)
        ensures
            r.wf(),
            r.header == header,
            r.root_path == root_path,
            r.paths() == Seq::<Seq<char>>::empty(),
            r.dirs() == Seq::<Seq<char>>::empty(),
    {
        PathIndex { header, root_path, registry: PathRegistry::new() }
    }

    /// Register a file and return its id.
    pub fn register_file(&mut self, path: &str) -> (r: u32)
        requires
            old(self).wf(),
            old(self).paths().len() < u32::MAX,
        ensures
            final(self).wf(),
            final(self).header == old(self).header,
            final(self).root_path == old(self).root_path,
            r == old(self).paths().len(),
            final(self).paths() == old(self).paths().push(path@),
            final(self).dirs() == if old(self).dirs().contains(dir_part(path@)) {
                old(self).dirs()
            } else {
                old(self).dirs().push(dir_part(path@))
            },
    {
        self.registry.register(path)
    }

    /// The full path of a file, or `None` for an unknown id.
    pub fn get_file_path(&self, file_id: u32) -> (r: Option<String>)
        requires
            self.wf(),
        ensures
            r is Some <==> (file_id as int) < self.paths().len(),
            r matches Some(p) ==> p@ == self.paths()[file_id as int],
    {
        self.registry.path(file_id)
    }

    /// The file name of a file, or `None` for an unknown id.
    pub fn get_file_name(&self, file_id: u32) -> (r: Option<&String>)
        requires
            self.wf(),
        ensures
            r is Some <==> (file_id as int) < self.paths().len(),
            r matches Some(n) ==> n@ == name_part(self.paths()[file_id as int]),
    {
        self.registry.file_name(file_id)
    }

    /// The directory lookup is kept up to date by every registration and by
    /// `from_parts`; rebuilding it leaves the index as it is.
    pub fn rebuild_dir_lookup(&mut self)
        requires
            old(self).wf(),
        ensures
            *final(self) == *old(self),
    {
    }

    pub fn file_count(&self) -> (r: usize)
        requires
            self.wf(),
        ensures
            r == self.paths().len(),
    {
        self.registry.count()
    }

    pub fn directory_count(&self) -> (r: usize)
        requires
            self.wf(),
        ensures
            r == self.dirs().len(),
    {
        self.registry.directory_count()
    }

    /// Every file as its id and full path, in id order.
    pub fn iter_files(&self) -> (r: Vec<(u32, String)>)
        requires
            self.wf(),
        ensures
            r@.len() == self.paths().len(),
            forall|i: int| 0 <= i < r@.len() ==> (#[trigger] r@[i]).0 == i && r@[i].1@ == self.paths()[i],
    {
        let n = self.registry.count();
        let mut out: Vec<(u32, String)> = Vec::new();
        let mut i: usize = 0;
        while i < n
            invariant
                self.wf(),
                n == self.paths().len(),
                i <= n,
                out@.len() == i,
                forall|j: int| 0 <= j < i ==> (#[trigger] out@[j]).0 == j && out@[j].1@ == self.paths()[j],
            decreases n - i,
        {
            match self.registry.path(i as u32) {
                Some(p) => out.push((i as u32, p)),
                None => {},
            }
            i += 1;
        }
        out
    }

    /// Every file as its id and file name, in id order.
    pub fn iter_filenames(&self) -> (r: Vec<(u32, String)>)
        requires
            self.wf(),
        ensures
            r@.len() == self.paths().len(),
            forall|i: int| 0 <= i < r@.len() ==> (#[trigger] r@[i]).0 == i && r@[i].1@ == name_part(self.paths()[i]),
    {
        let n = self.registry.count();
        let mut out: Vec<(u32, String)> = Vec::new();
        let mut i: usize = 0;
        while i < n
            invariant
                self.wf(),
                n == self.paths().len(),
                i <= n,
                out@.len() == i,
                forall|j: int| 0 <= j < i ==> (#[trigger] out@[j]).0 == j && out@[j].1@ == name_part(self.paths()[j]),
            decreases n - i,
        {
            match self.registry.file_name(i as u32) {
                Some(name) => out.push((i as u32, name.clone())),
                None => {},
            }
            i += 1;
        }
        out
    }

    /// The registered directories, in order of first appearance.
    pub fn directories(&self) -> (r: &Vec<String>)
        ensures
            r@.map_values(|d: String| d@) == self.dirs(),
    {
        self.registry.directories()
    }

    /// Each file as its directory id and file name, indexed by file id.
    pub fn files(&self) -> (r: &Vec<(u32, String)>)
        requires
            self.wf(),
        ensures
            r@.len() == self.paths().len(),
            forall|i: int| 0 <= i < r@.len() ==> ((#[trigger] r@[i]).0 as int) < self.dirs().len(),
            forall|i: int| 0 <= i < r@.len() ==> self.dirs()[(#[trigger] r@[i]).0 as int] + r@[i].1@ == self.paths()[i],
    {
        let r = self.registry.files();
        proof {
            assert forall|i: int| 0 <= i < r@.len() implies self.dirs()[(#[trigger] r@[i]).0 as int] + r@[i].1@ == self.paths()[i] by {
                assert(r@.map_values(|f: (u32, String)| f.0)[i] == r@[i].0);
                assert(r@.map_values(|f: (u32, String)| f.1@)[i] == r@[i].1@);
            }
        }
        r
    }

    /// The parts an index hands out rebuild it: `from_parts` accepts them and
    /// gives back the same paths, which with the header and root path is the
    /// whole of what the index records (the directory lookup is rebuilt).
    pub proof fn lemma_parts_round_trip(&self, directories: Seq<String>, files: Seq<(u32, String)>)
        requires
            self.wf(),
            directories.map_values(|d: String| d@) == self.dirs(),
            files.len() == self.paths().len(),
            forall|i: int| 0 <= i < files.len() ==> ((#[trigger] files[i]).0 as int) < self.dirs().len(),
            forall|i: int| 0 <= i < files.len() ==> self.dirs()[(#[trigger] files[i]).0 as int] + files[i].1@ == self.paths()[i],
        ensures
            files.len() <= u32::MAX,
            forall|i: int| 0 <= i < files.len() ==> (#[trigger] files[i].0 as int) < directories.len(),
            Seq::new(files.len(), |i: int| directories[files[i].0 as int]@ + files[i].1@) == self.paths(),
    {
        assert(directories.len() == self.dirs().len());
        assert forall|i: int| 0 <= i < files.len() implies (#[trigger] files[i].0 as int) < directories.len() by {
            assert((files[i].0 as int) < self.dirs().len());
        }
        assert forall|i: int| 0 <= i < files.len() implies directories[files[i].0 as int]@ + files[i].1@ == self.paths()[i] by {
            assert(directories.map_values(|d: String| d@)[files[i].0 as int] == directories[files[i].0 as int]@);
        }
        assert(Seq::new(files.len(), |i: int| directories[files[i].0 as int]@ + files[i].1@) =~= self.paths());
    }

    /// An index from stored parts: `InvalidIndexFormat` for a header of another
    /// version, `Serialization` when a file names a directory that is not
    /// there or there are too many files; otherwise the paths are the joined parts.
    pub fn from_parts(
        header: IndexHeader,
        root_path: String,
        directories: &Vec<String>,
        files: &Vec<(u32, String)>,
    ) -> (r: Result<PathIndex, TokenizerError>)
        ensures
            header.version != FORMAT_VERSION <==> r matches Err(TokenizerError::InvalidIndexFormat(_)),
            header.version == FORMAT_VERSION ==> (r matches Err(TokenizerError::Serialization(_))
                <==> !(files@.len() <= u32::MAX && forall|i: int|
                0 <= i < files@.len() ==> (#[trigger] files@[i].0 as int) < directories@.len())),
            r matches Err(e) ==> e is InvalidIndexFormat || e is Serialization,
            r matches Ok(ix) ==> ix.wf() && ix.header == header && ix.root_path == root_path
                && ix.paths() == Seq::new(
                files@.len(),
                |i: int| directories@[files@[i].0 as int]@ + files@[i].1@,
            ),
    {
        if header.version != FORMAT_VERSION {
            return Err(TokenizerError::InvalidIndexFormat("version mismatch".to_owned()));
        }
        match PathRegistry::from_parts(directories, files) {
            Some(registry) => Ok(PathIndex { header, root_path, registry }),
            None => Err(TokenizerError::Serialization("file entry names a missing directory".to_owned())),
        }
    }
}


/// Case-sensitive (or, for the `exacti` store, lowercased) token hash to the
/// bitmap of the files that hold the token.
pub struct ExactTokenIndex {
    pub header: IndexHeader,
    pub token_map: HashMap<u64, RoaringBitmap>,
}

impl ExactTokenIndex {
    /// The ids under each token hash.
    pub open spec fn postings(&self) -> Map<u64, Set<u32>> {
        posting_sets(self.token_map@)
    }

    pub fn new(header: IndexHeader) -> (r: ExactTokenIndex)
        ensures
            r.header == header,
            r.postings() == Map::<u64, Set<u32>>::empty(),
    {
        let r = ExactTokenIndex { header, token_map: HashMap::new() };
        assert(r.postings() =~= Map::<u64, Set<u32>>::empty());
        r
    }

    /// Record that file `file_id` holds the token with hash `token_hash`.
    pub fn add_token(&mut self, token_hash: u64, file_id: u32)
        ensures
            final(self).header == old(self).header,
            final(self).postings() == with_id(old(self).postings(), token_hash, file_id),
    {
        let mut b = match self.token_map.remove(&token_hash) {
            Some(b) => b,
            None => bitmap_new(),
        };
        bitmap_insert(&mut b, file_id);
        self.token_map.insert(token_hash, b);
        assert(self.postings() =~= with_id(old(self).postings(), token_hash, file_id));
    }

    /// The bitmap under a token hash.
    pub fn get_bitmap(&self, token_hash: u64) -> (r: Option<&RoaringBitmap>)
        ensures
            r is Some <==> self.postings().contains_key(token_hash),
            r matches Some(b) ==> bitmap_ids(*b) == self.postings()[token_hash],
    {
        self.token_map.get(&token_hash)
    }

    /// Number of distinct token hashes.
    pub fn token_count(&self) -> (r: usize)
        ensures
            r == self.postings().dom().len(),
    {
        assert(self.postings().dom() =~= self.token_map@.dom());
        self.token_map.len()
    }

    /// A store from stored parts; `InvalidIndexFormat` for a header of another version.
    pub fn from_parts(header: IndexHeader, token_map: HashMap<u64, RoaringBitmap>) -> (r: Result<
        ExactTokenIndex,
        TokenizerError,
    >)
        ensures
            header.version != FORMAT_VERSION <==> r is Err,
            r matches Err(e) ==> e is InvalidIndexFormat,
            r matches Ok(ix) ==> ix.header == header && ix.token_map@ == token_map@,
    {
        if header.version != FORMAT_VERSION {
            return Err(TokenizerError::InvalidIndexFormat("version mismatch".to_owned()));
        }
        Ok(ExactTokenIndex { header, token_map })
    }
}

/// Packed trigram to the bitmap of the files that hold it.
pub struct TrigramIndex {
    pub header: IndexHeader,
    pub trigram_map: HashMap<u32, RoaringBitmap>,
}

impl TrigramIndex {
    /// The ids under each trigram.
    pub open spec fn postings(&self) -> Map<u32, Set<u32>> {
        posting_sets(self.trigram_map@)
    }

    pub fn new(header: IndexHeader) -> (r: TrigramIndex)
        ensures
            r.header == header,
            r.postings() == Map::<u32, Set<u32>>::empty(),
    {
        let r = TrigramIndex { header, trigram_map: HashMap::new() };
        assert(r.postings() =~= Map::<u32, Set<u32>>::empty());
        r
    }

    /// Record that file `file_id` holds `trigram`.
    pub fn add_trigram(&mut self, trigram: u32, file_id: u32)
        ensures
            final(self).header == old(self).header,
            final(self).postings() == with_id(old(self).postings(), trigram, file_id),
    {
        let mut b = match self.trigram_map.remove(&trigram) {
            Some(b) => b,
            None => bitmap_new(),
        };
        bitmap_insert(&mut b, file_id);
        self.trigram_map.insert(trigram, b);
        assert(self.postings() =~= with_id(old(self).postings(), trigram, file_id));
    }

    /// The bitmap under a trigram.
    pub fn get_bitmap(&self, trigram: u32) -> (r: Option<&RoaringBitmap>)
        ensures
            r is Some <==> self.postings().contains_key(trigram),
            r matches Some(b) ==> bitmap_ids(*b) == self.postings()[trigram],
    {
        self.trigram_map.get(&trigram)
    }

    /// Number of distinct trigrams.
    pub fn trigram_count(&self) -> (r: usize)
        ensures
            r == self.postings().dom().len(),
    {
        assert(self.postings().dom() =~= self.trigram_map@.dom());
        self.trigram_map.len()
    }

    /// A store from stored parts; `InvalidIndexFormat` for a header of another version.
    pub fn from_parts(header: IndexHeader, trigram_map: HashMap<u32, RoaringBitmap>) -> (r: Result<
        TrigramIndex,
        TokenizerError,
    >)
        ensures
            header.version != FORMAT_VERSION <==> r is Err,
            r matches Err(e) ==> e is InvalidIndexFormat,
            r matches Ok(ix) ==> ix.header == header && ix.trigram_map@ == trigram_map@,
    {
        if header.version != FORMAT_VERSION {
            return Err(TokenizerError::InvalidIndexFormat("version mismatch".to_owned()));
        }
        Ok(TrigramIndex { header, trigram_map })
    }
}

/// Description of a single-file index.
#[derive(Debug, Clone)]
pub struct IndexMetadata {
    /// Format version.
    pub version: u32,
    /// Creation time, in seconds since the Unix epoch.
    pub created_at: u64,
    /// The directory that was indexed.
    pub root_path: String,
    /// Number of files, as of the last registration or `finalize`.
    pub file_count: u32,
    /// Number of distinct tokens, as of the last `finalize`.
    pub token_count: u64,
}

/// Version of the single-file index format.
pub const LEGACY_VERSION: u32 = 2;

/// The single-file index: word-token postings and paths together.
pub struct TokenIndex {
    pub token_map: HashMap<u64, RoaringBitmap>,
    pub registry: PathRegistry,
    pub metadata: IndexMetadata,
}

impl TokenIndex {
    pub const CURRENT_VERSION: u32 = LEGACY_VERSION;

    /// The ids under each token hash.
    pub open spec fn postings(&self) -> Map<u64, Set<u32>> {
        posting_sets(self.token_map@)
    }

    pub open spec fn paths(&self) -> Seq<Seq<char>> {
        self.registry.paths()
    }

    pub open spec fn wf(&self) -> bool {
        self.registry.wf()
    }

    pub fn new(root_path: String) -> (r: TokenIndex)
        ensures
            r.wf(),
            r.paths() == Seq::<Seq<char>>::empty(),
            r.postings() == Map::<u64, Set<u32>>::empty(),
            r.metadata.version == LEGACY_VERSION,
            r.metadata.root_path == root_path,
            r.metadata.file_count == 0,
            r.metadata.token_count == 0,
    {
        let created_at = match time_since_epoch() {
            Some(t) => t.0,
            None => 0,
        };
        let r = TokenIndex {
            token_map: HashMap::new(),
            registry: PathRegistry::new(),
            metadata: IndexMetadata {
                version: LEGACY_VERSION,
                created_at,
                root_path,
                file_count: 0,
                token_count: 0,
            },
        };
        assert(r.postings() =~= Map::<u64, Set<u32>>::empty());
        r
    }

    /// Register a file and return its id.
    pub fn register_file(&mut self, path: &str) -> (r: u32)
        requires
            old(self).wf(),
            old(self).paths().len() < u32::MAX,
        ensures
            final(self).wf(),
            r == old(self).paths().len(),
            final(self).paths() == old(self).paths().push(path@),
            final(self).postings() == old(self).postings(),
            final(self).metadata.file_count == r + 1,
    {
        let id = self.registry.register(path);
        self.metadata.file_count = id + 1;
        id
    }

    /// Record that file `file_id` holds the token with hash `token_hash`.
    pub fn add_token(&mut self, token_hash: u64, file_id: u32)
        ensures
            final(self).registry == old(self).registry,
            final(self).postings() == with_id(old(self).postings(), token_hash, file_id),
    {
        let mut b = match self.token_map.remove(&token_hash) {
            Some(b) => b,
            None => bitmap_new(),
        };
        bitmap_insert(&mut b, file_id);
        self.token_map.insert(token_hash, b);
        assert(self.postings() =~= with_id(old(self).postings(), token_hash, file_id));
    }

    /// The bitmap under a token hash.
    pub fn get_bitmap(&self, token_hash: u64) -> (r: Option<&RoaringBitmap>)
        ensures
            r is Some <==> self.postings().contains_key(token_hash),
            r matches Some(b) ==> bitmap_ids(*b) == self.postings()[token_hash],
    {
        self.token_map.get(&token_hash)
    }

    /// The full path of a file, or `None` for an unknown id.
    pub fn get_file_path(&self, file_id: u32) -> (r: Option<String>)
        requires
            self.wf(),
        ensures
            r is Some <==> (file_id as int) < self.paths().len(),
            r matches Some(p) ==> p@ == self.paths()[file_id as int],
    {
        self.registry.path(file_id)
    }

    /// The directory lookup is kept up to date by every registration;
    /// rebuilding it leaves the index as it is.
    pub fn rebuild_dir_lookup(&mut self)
        ensures
            *final(self) == *old(self),
    {
    }

    /// Bring the metadata counts up to date.
    pub fn finalize(&mut self)
        requires
            old(self).wf(),
        ensures
            final(self).wf(),
            final(self).registry == old(self).registry,
            final(self).token_map == old(self).token_map,
            final(self).metadata.file_count == old(self).paths().len(),
            final(self).metadata.token_count == old(self).postings().dom().len(),
    {
        assert(self.postings().dom() =~= self.token_map@.dom());
        self.metadata.file_count = self.registry.count() as u32;
        self.metadata.token_count = self.token_map.len() as u64;
    }

    pub fn metadata(&self) -> (r: &IndexMetadata)
        ensures
            *r == self.metadata,
    {
        &self.metadata
    }

    /// Number of distinct token hashes.
    pub fn token_count(&self) -> (r: usize)
        ensures
            r == self.postings().dom().len(),
    {
        assert(self.postings().dom() =~= self.token_map@.dom());
        self.token_map.len()
    }

    /// An index from stored parts: `InvalidIndexFormat` for metadata of another
    /// version, `Serialization` when a file names a directory that is not there
    /// or there are too many files; otherwise the paths are the joined parts.
    pub fn from_parts(
        token_map: HashMap<u64, RoaringBitmap>,
        directories: &Vec<String>,
        files: &Vec<(u32, String)>,
        metadata: IndexMetadata,
    ) -> (r: Result<TokenIndex, TokenizerError>)
        ensures
            metadata.version != LEGACY_VERSION <==> r matches Err(TokenizerError::InvalidIndexFormat(_)),
            metadata.version == LEGACY_VERSION ==> (r matches Err(TokenizerError::Serialization(_))
                <==> !(files@.len() <= u32::MAX && forall|i: int|
                0 <= i < files@.len() ==> (#[trigger] files@[i].0 as int) < directories@.len())),
            r matches Err(e) ==> e is InvalidIndexFormat || e is Serialization,
            r matches Ok(ix) ==> ix.wf() && ix.token_map@ == token_map@ && ix.metadata == metadata
                && ix.paths() == Seq::new(
                files@.len(),
                |i: int| directories@[files@[i].0 as int]@ + files@[i].1@,
            ),
    {
        if metadata.version != LEGACY_VERSION {
            return Err(TokenizerError::InvalidIndexFormat("version mismatch".to_owned()));
        }
        match PathRegistry::from_parts(directories, files) {
            Some(registry) => Ok(TokenIndex { token_map, registry, metadata }),
            None => Err(TokenizerError::Serialization("file entry names a missing directory".to_owned())),
        }
    }

    pub fn file_count(&self) -> (r: usize)
        requires
            self.wf(),
        ensures
            r == self.paths().len(),
    {
        self.registry.count()
    }

    pub fn directory_count(&self) -> (r: usize)
        requires
            self.wf(),
        ensures
            r == self.registry.dirs().len(),
    {
        self.registry.directory_count()
    }

    /// Every file as its id and full path, in id order.
    pub fn iter_files(&self) -> (r: Vec<(u32, String)>)
        requires
            self.wf(),
        ensures
            r@.len() == self.paths().len(),
            forall|i: int| 0 <= i < r@.len() ==> (#[trigger] r@[i]).0 == i && r@[i].1@ == self.paths()[i],
    {
        let n = self.registry.count();
        let mut out: Vec<(u32, String)> = Vec::new();
        let mut i: usize = 0;
        while i < n
            invariant
                self.wf(),
                n == self.paths().len(),
                i <= n,
                out@.len() == i,
                forall|j: int| 0 <= j < i ==> (#[trigger] out@[j]).0 == j && out@[j].1@ == self.paths()[j],
            decreases n - i,
        {
            match self.registry.path(i as u32) {
                Some(p) => out.push((i as u32, p)),
                None => {},
            }
            i += 1;
        }
        out
    }

    /// Every file as its id and file name, in id order.
    pub fn iter_filenames(&self) -> (r: Vec<(u32, String)>)
        requires
            self.wf(),
        ensures
            r@.len() == self.paths().len(),
            forall|i: int| 0 <= i < r@.len() ==> (#[trigger] r@[i]).0 == i && r@[i].1@ == name_part(self.paths()[i]),
    {
        let n = self.registry.count();
        let mut out: Vec<(u32, String)> = Vec::new();
        let mut i: usize = 0;
        while i < n
            invariant
                self.wf(),
                n == self.paths().len(),
                i <= n,
                out@.len() == i,
                forall|j: int| 0 <= j < i ==> (#[trigger] out@[j]).0 == j && out@[j].1@ == name_part(self.paths()[j]),
            decreases n - i,
        {
            match self.registry.file_name(i as u32) {
                Some(name) => out.push((i as u32, name.clone())),
                None => {},
            }
            i += 1;
        }
        out
    }
}

} // verus!
