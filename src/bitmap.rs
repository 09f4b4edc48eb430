//! Posting bitmaps: `roaring::RoaringBitmap` behind trusted wrappers, and the
//! set algebra the query planner builds on them.

use roaring::RoaringBitmap;
use vstd::prelude::*;

verus! {

/// Declares roaring::RoaringBitmap, an opaque set of `u32`; `bitmap_ids` names its contents.
#[verifier::external_type_specification]
#[verifier::external_body]
pub struct ExRoaringBitmap(RoaringBitmap);

/// The file ids a bitmap holds.
pub uninterp spec fn bitmap_ids(b: RoaringBitmap) -> Set<u32>;

/// Relies on RoaringBitmap::new: the new bitmap is empty.
#[verifier::external_body]
pub(crate) fn bitmap_new() -> (r: RoaringBitmap)
    ensures
        bitmap_ids(r) == Set::<u32>::empty(),
{
    RoaringBitmap::new()
}

/// Relies on RoaringBitmap::insert: adds `v`; true when it was absent.
#[verifier::external_body]
pub(crate) fn bitmap_insert(b: &mut RoaringBitmap, v: u32) -> (r: bool)
    ensures
        bitmap_ids(*final(b)) == bitmap_ids(*old(b)).insert(v),
        r == !bitmap_ids(*old(b)).contains(v),
{
    b.insert(v)
}

/// Relies on RoaringBitmap::contains.
#[verifier::external_body]
pub(crate) fn bitmap_contains(b: &RoaringBitmap, v: u32) -> (r: bool)
    ensures
        r == bitmap_ids(*b).contains(v),
{
    b.contains(v)
}

/// Relies on RoaringBitmap::len: the number of ids held.
#[verifier::external_body]
pub(crate) fn bitmap_len(b: &RoaringBitmap) -> (r: u64)
    ensures
        r == bitmap_ids(*b).len(),
{
    b.len()
}

/// Relies on RoaringBitmap::is_empty.
#[verifier::external_body]
pub(crate) fn bitmap_is_empty(b: &RoaringBitmap) -> (r: bool)
    ensures
        r == (bitmap_ids(*b) == Set::<u32>::empty()),
{
    b.is_empty()
}

/// Relies on `Clone for RoaringBitmap`: the copy holds the same ids.
#[verifier::external_body]
pub(crate) fn bitmap_clone(b: &RoaringBitmap) -> (r: RoaringBitmap)
    ensures
        bitmap_ids(r) == bitmap_ids(*b),
{
    b.clone()
}

/// Relies on `BitAndAssign<&RoaringBitmap> for RoaringBitmap`: keeps the ids held by both.
#[verifier::external_body]
pub(crate) fn bitmap_and_assign(a: &mut RoaringBitmap, b: &RoaringBitmap)
    ensures
        bitmap_ids(*final(a)) == bitmap_ids(*old(a)).intersect(bitmap_ids(*b)),
{
    *a &= b;
}

/// Relies on `BitOrAssign<&RoaringBitmap> for RoaringBitmap`: adds the ids of `b`.
#[verifier::external_body]
pub(crate) fn bitmap_or_assign(a: &mut RoaringBitmap, b: &RoaringBitmap)
    ensures
        bitmap_ids(*final(a)) == bitmap_ids(*old(a)).union(bitmap_ids(*b)),
{
    *a |= b;
}

/// Relies on RoaringBitmap::iter, which yields every id once, in ascending order.
#[verifier::external_body]
pub(crate) fn bitmap_to_vec(b: &RoaringBitmap) -> (r: Vec<u32>)
    ensures
        r@.to_set() == bitmap_ids(*b),
        forall|i: int, j: int| 0 <= i < j < r@.len() ==> r@[i] < r@[j],
{
    b.iter().collect()
}

/// Ids held by every set of `sets`; nothing for an empty sequence.
pub open spec fn intersection_of(sets: Seq<Set<u32>>) -> Set<u32> {
    if sets.len() == 0 {
        Set::empty()
    } else {
        Set::new(|x: u32| forall|i: int| 0 <= i < sets.len() ==> #[trigger] sets[i].contains(x))
    }
}

/// Ids held by at least one set of `sets`.
pub open spec fn union_of(sets: Seq<Set<u32>>) -> Set<u32> {
    Set::new(|x: u32| exists|i: int| 0 <= i < sets.len() && #[trigger] sets[i].contains(x))
}

/// The ids held by the bitmaps of `bs`, one set per bitmap.
pub open spec fn id_sets(bs: Seq<&RoaringBitmap>) -> Seq<Set<u32>> {
    bs.map_values(|b: &RoaringBitmap| bitmap_ids(*b))
}

/// Intersecting a sequence of sets does not depend on the order of the sets.
pub proof fn lemma_intersection_order_independent(a: Seq<Set<u32>>, b: Seq<Set<u32>>)
    requires
        a.to_multiset() == b.to_multiset(),
    ensures
        intersection_of(a) == intersection_of(b),
{
    a.to_multiset_ensures();
    b.to_multiset_ensures();
    assert(a.len() == b.len());
    if a.len() > 0 {
        assert forall|x: u32| intersection_of(a).contains(x) implies intersection_of(b).contains(x) by {
            assert forall|j: int| 0 <= j < b.len() implies #[trigger] b[j].contains(x) by {
                assert(b.to_multiset().contains(b[j]));
                assert(a.contains(b[j]));
                let i = choose|i: int| 0 <= i < a.len() && a[i] == b[j];
                assert(a[i].contains(x));
            }
        }
        assert forall|x: u32| intersection_of(b).contains(x) implies intersection_of(a).contains(x) by {
            assert forall|j: int| 0 <= j < a.len() implies #[trigger] a[j].contains(x) by {
                assert(a.to_multiset().contains(a[j]));
                assert(b.contains(a[j]));
                let i = choose|i: int| 0 <= i < b.len() && b[i] == a[j];
                assert(b[i].contains(x));
            }
        }
        assert(intersection_of(a) =~= intersection_of(b));
    }
}

/// Every id held by all the sets is held by one of them.
pub proof fn lemma_intersection_within_union(a: Seq<Set<u32>>)
    ensures
        intersection_of(a).subset_of(union_of(a)),
{
    if a.len() > 0 {
        assert forall|x: u32| intersection_of(a).contains(x) implies union_of(a).contains(x) by {
            assert(a[0].contains(x));
        }
    }
}

} // verus!
