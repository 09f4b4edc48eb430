//! Paths and text: the registry's model of a path, and the few std string
//! operations the library relies on.

use vstd::prelude::*;
use vstd::string::StringExecFns;

verus! {

/// The longest prefix of `p` that ends with `c`, or the empty string when
/// `c` does not occur.
pub open spec fn prefix_through(p: Seq<char>, c: char) -> Seq<char>
    decreases p.len(),
{
    if p.len() == 0 {
        seq![]
    } else if p.last() == c {
        p
    } else {
        prefix_through(p.drop_last(), c)
    }
}

/// The directory part of a path: its longest prefix that ends with `/`, or
/// the empty string when it holds no `/`.
pub open spec fn dir_part(p: Seq<char>) -> Seq<char> {
    prefix_through(p, '/')
}

/// Splitting at the last `c` of `d + n`, where `c` ends `d` and is not in `n`.
pub proof fn lemma_prefix_through_join(d: Seq<char>, n: Seq<char>, c: char)
    requires
        d.len() == 0 || d.last() == c,
        !n.contains(c),
    ensures
        prefix_through(d + n, c) == d,
    decreases n.len(),
{
    if n.len() == 0 {
        assert(d + n =~= d);
        if d.len() > 0 {
            assert(d.drop_last() + seq![c] =~= d);
        }
    } else {
        assert((d + n).drop_last() =~= d + n.drop_last());
        assert(n.last() == n[n.len() - 1]);
        assert(!n.drop_last().contains(c)) by {
            if n.drop_last().contains(c) {
                let i = choose|i: int| 0 <= i < n.drop_last().len() && n.drop_last()[i] == c;
                assert(n[i] == c);
            }
        }
        lemma_prefix_through_join(d, n.drop_last(), c);
    }
}

/// The file-name part of a path: what follows its directory part.
pub open spec fn name_part(p: Seq<char>) -> Seq<char> {
    p.subrange(dir_part(p).len() as int, p.len() as int)
}

/// A directory as the registry stores it: empty, or ending with `/`.
pub open spec fn is_dir_form(d: Seq<char>) -> bool {
    d.len() == 0 || d.last() == '/'
}

/// A path is its directory part followed by its file name, which holds no `/`.
pub proof fn lemma_dir_part_prefix(p: Seq<char>)
    ensures
        dir_part(p).len() <= p.len(),
        dir_part(p) == p.subrange(0, dir_part(p).len() as int),
        is_dir_form(dir_part(p)),
        !name_part(p).contains('/'),
        dir_part(p) + name_part(p) == p,
    decreases p.len(),
{
    if p.len() > 0 && p.last() != '/' {
        lemma_dir_part_prefix(p.drop_last());
        let d = dir_part(p.drop_last());
        assert(name_part(p) =~= name_part(p.drop_last()).push(p.last()));
        assert(d + name_part(p) =~= p);
    } else if p.len() > 0 {
        assert(name_part(p) =~= seq![]);
        assert(p.subrange(0, p.len() as int) =~= p);
    } else {
        assert(name_part(p) =~= seq![]);
    }
}

/// Splitting after the directory part of `d + n` gives back `d` and `n`.
pub proof fn lemma_dir_part_of_join(d: Seq<char>, n: Seq<char>)
    requires
        is_dir_form(d),
        !n.contains('/'),
    ensures
        dir_part(d + n) == d,
        name_part(d + n) == n,
{
    lemma_prefix_through_join(d, n, '/');
    assert((d + n).subrange(d.len() as int, (d + n).len() as int) =~= n);
}

/// `needle` occurs in `hay` as a contiguous run.
pub open spec fn occurs_in(needle: Seq<char>, hay: Seq<char>) -> bool {
    exists|i: int|
        0 <= i && i + needle.len() <= hay.len() && #[trigger] hay.subrange(i, i + needle.len())
            == needle
}

/// What `str::to_lowercase` makes of a string.
pub uninterp spec fn lower_of(s: Seq<char>) -> Seq<char>;

/// Relies on str::to_lowercase: the result depends on the characters alone.
#[verifier::external_body]
pub(crate) fn lowercase(s: &str) -> (r: String)
    ensures
        r@ == lower_of(s@),
{
    s.to_lowercase()
}

/// Relies on str::contains with a `&str` pattern: true exactly when `needle`
/// occurs in `hay`.
#[verifier::external_body]
pub(crate) fn contains_str(hay: &str, needle: &str) -> (r: bool)
    ensures
        r == occurs_in(needle@, hay@),
{
    hay.contains(needle)
}

/// Relies on str::rsplit_once with a `char` pattern: the text before and
/// after the last occurrence of `c`, or `None` when `c` does not occur.
#[verifier::external_body]
pub(crate) fn rsplit_once_char(s: &str, c: char) -> (r: Option<(&str, &str)>)
    ensures
        r is None <==> !s@.contains(c),
        r matches Some(parts) ==> s@ == parts.0@ + seq![c] + parts.1@ && !parts.1@.contains(c),
{
    s.rsplit_once(c)
}

/// Split a path into its directory part (keeping the final `/`) and its file name.
pub fn split_path(path: &str) -> (r: (String, String))
    ensures
        r.0@ == dir_part(path@),
        r.1@ == name_part(path@),
{
    proof {
        reveal_strlit("/");
    }
    match rsplit_once_char(path, '/') {
        Some((dir, name)) => {
            let d = dir.to_owned().concat("/");
            proof {
                assert(d@ =~= dir@ + seq!['/']);
                assert(path@ =~= d@ + name@);
                lemma_dir_part_of_join(d@, name@);
            }
            (d, name.to_owned())
        },
        None => {
            proof {
                assert(seq![] + path@ =~= path@);
                lemma_dir_part_of_join(seq![], path@);
            }
            (String::new(), path.to_owned())
        },
    }
}

/// Relies on String::push: appends one character.
#[verifier::external_body]
pub(crate) fn push_char(s: &mut String, c: char)
    ensures
        final(s)@ == old(s)@.push(c),
{
    s.push(c);
}

/// Join a directory part and a file name.
pub fn join_path(dir: &String, name: &String) -> (r: String)
    ensures
        r@ == dir@ + name@,
{
    dir.clone().concat(name.as_str())
}

} // verus!
