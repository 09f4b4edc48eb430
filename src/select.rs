//! Ordered selection of file ids: the ids below a bound that satisfy a
//! predicate, ascending, optionally cut to a limit.

use vstd::prelude::*;

verus! {

/// The ids in `0..n` that satisfy `keep`, ascending.
pub open spec fn kept_ids(keep: spec_fn(int) -> bool, n: int) -> Seq<u32>
    decreases n,
{
    if n <= 0 {
        seq![]
    } else {
        kept_ids(keep, n - 1) + if keep(n - 1) {
            seq![(n - 1) as u32]
        } else {
            seq![]
        }
    }
}

/// `s` cut to its first `limit` elements when a limit is set.
pub open spec fn limited<A>(s: Seq<A>, limit: Option<usize>) -> Seq<A> {
    match limit {
        Some(l) => if (l as int) < s.len() {
            s.take(l as int)
        } else {
            s
        },
        None => s,
    }
}

/// Selection up to `i` is a prefix of selection up to `j >= i`.
pub proof fn lemma_kept_ids_prefix(keep: spec_fn(int) -> bool, i: int, j: int)
    requires
        i <= j,
    ensures
        kept_ids(keep, i).len() <= kept_ids(keep, j).len(),
        kept_ids(keep, j).take(kept_ids(keep, i).len() as int) == kept_ids(keep, i),
    decreases j - i,
{
    if i < j {
        lemma_kept_ids_prefix(keep, i, j - 1);
        let a = kept_ids(keep, i);
        let b = kept_ids(keep, j - 1);
        assert(kept_ids(keep, j).take(a.len() as int) =~= b.take(a.len() as int));
    } else {
        assert(kept_ids(keep, j).take(kept_ids(keep, i).len() as int) =~= kept_ids(keep, i));
    }
}

/// Nothing in `i..j` is kept, so selection up to `j` is selection up to `i`.
pub proof fn lemma_kept_ids_gap(keep: spec_fn(int) -> bool, i: int, j: int)
    requires
        i <= j,
        forall|x: int| i <= x < j ==> !#[trigger] keep(x),
    ensures
        kept_ids(keep, j) == kept_ids(keep, i),
    decreases j - i,
{
    if i < j {
        lemma_kept_ids_gap(keep, i, j - 1);
        assert(kept_ids(keep, j) =~= kept_ids(keep, j - 1));
    }
}

/// Selected ids are kept, below the bound, and ascending.
pub proof fn lemma_kept_ids_members(keep: spec_fn(int) -> bool, n: int)
    requires
        n <= 0x1_0000_0000,
    ensures
        forall|k: int|
            0 <= k < kept_ids(keep, n).len() ==> keep(#[trigger] kept_ids(keep, n)[k] as int) && (
            kept_ids(keep, n)[k] as int) < n,
        forall|k: int, m: int|
            0 <= k < m < kept_ids(keep, n).len() ==> kept_ids(keep, n)[k] < kept_ids(keep, n)[m],
    decreases n,
{
    if n > 0 {
        lemma_kept_ids_members(keep, n - 1);
        let a = kept_ids(keep, n - 1);
        let b = kept_ids(keep, n);
        assert forall|k: int| 0 <= k < b.len() implies keep(#[trigger] b[k] as int) && (b[k] as int) < n by {
            if k < a.len() {
                assert(b[k] == a[k]);
            }
        }
        assert forall|k: int, m: int| 0 <= k < m < b.len() implies b[k] < b[m] by {
            if m < a.len() {
                assert(b[k] == a[k] && b[m] == a[m]);
            } else {
                assert(b[k] == a[k]);
                assert(keep(a[k] as int));
            }
        }
    }
}

/// An id is selected exactly when it is below the bound and kept.
pub proof fn lemma_kept_ids_contains(keep: spec_fn(int) -> bool, n: int, x: int)
    requires
        n <= 0x1_0000_0000,
        0 <= x < 0x1_0000_0000,
    ensures
        kept_ids(keep, n).contains(x as u32) <==> (x < n && keep(x)),
    decreases n,
{
    if n > 0 {
        lemma_kept_ids_contains(keep, n - 1, x);
        let a = kept_ids(keep, n - 1);
        let b = kept_ids(keep, n);
        if a.contains(x as u32) {
            let k = choose|k: int| 0 <= k < a.len() && a[k] == x as u32;
            assert(b[k] == x as u32);
        }
        if b.contains(x as u32) && !a.contains(x as u32) {
            let k = choose|k: int| 0 <= k < b.len() && b[k] == x as u32;
            if k < a.len() {
                assert(a[k] == b[k]);
            }
        }
        if x == n - 1 && keep(x) {
            assert(b[b.len() - 1] == x as u32);
        }
    }
}

/// Adding one more limited step: once the limit is reached, selecting further does not change the result.
pub proof fn lemma_limited_prefix<A>(a: Seq<A>, b: Seq<A>, l: usize)
    requires
        a.len() <= b.len(),
        b.take(a.len() as int) == a,
        a.len() >= l,
    ensures
        limited(b, Some(l)) == limited(a, Some(l)),
{
    assert(b.take(l as int) =~= a.take(l as int));
}

} // verus!
