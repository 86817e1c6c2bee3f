use vstd::prelude::*;

use roaring::RoaringBitmap;

verus! {

#[verifier::external_type_specification]
#[verifier::external_body]
pub struct ExRoaringBitmap(RoaringBitmap);

/// The set of row ids a compressed bitmap holds.
pub uninterp spec fn bitmap_ids(b: RoaringBitmap) -> Set<u32>;

/// Relies on `roaring::RoaringBitmap::new`: creates an empty bitmap.
#[verifier::external_body]
pub(crate) fn bitmap_new() -> (r: RoaringBitmap)
    ensures
        bitmap_ids(r) == Set::<u32>::empty(),
        bitmap_ids(r).finite(),
{
    RoaringBitmap::new()
}

/// Relies on `roaring::RoaringBitmap::insert`: adds one value to the set.
#[verifier::external_body]
pub(crate) fn bitmap_insert(b: &mut RoaringBitmap, id: u32)
    ensures
        bitmap_ids(*final(b)) == bitmap_ids(*old(b)).insert(id),
        bitmap_ids(*final(b)).finite(),
{
    b.insert(id);
}

/// Relies on `roaring::RoaringBitmap::contains`: membership test.
#[verifier::external_body]
pub(crate) fn bitmap_contains(b: &RoaringBitmap, id: u32) -> (r: bool)
    ensures
        r == bitmap_ids(*b).contains(id),
{
    b.contains(id)
}

/// Relies on `roaring::RoaringBitmap::len`: the number of distinct values
/// in the set.
#[verifier::external_body]
pub(crate) fn bitmap_len(b: &RoaringBitmap) -> (r: u64)
    requires
        bitmap_ids(*b).finite(),
    ensures
        r as nat == bitmap_ids(*b).len(),
{
    b.len()
}

/// Relies on `roaring::RoaringBitmap::is_empty`: whether the set holds no
/// value.
#[verifier::external_body]
pub(crate) fn bitmap_is_empty(b: &RoaringBitmap) -> (r: bool)
    ensures
        r == (bitmap_ids(*b) == Set::<u32>::empty()),
{
    b.is_empty()
}

/// Relies on roaring's `BitAnd` for `&RoaringBitmap`: set intersection.
#[verifier::external_body]
pub(crate) fn bitmap_and(a: &RoaringBitmap, b: &RoaringBitmap) -> (r: RoaringBitmap)
    ensures
        bitmap_ids(r) == bitmap_ids(*a).intersect(bitmap_ids(*b)),
        bitmap_ids(r).finite(),
{
    a & b
}

/// Relies on roaring's `BitOr` for `&RoaringBitmap`: set union.
#[verifier::external_body]
pub(crate) fn bitmap_or(a: &RoaringBitmap, b: &RoaringBitmap) -> (r: RoaringBitmap)
    ensures
        bitmap_ids(r) == bitmap_ids(*a).union(bitmap_ids(*b)),
        bitmap_ids(r).finite(),
{
    a | b
}

/// Relies on `roaring::RoaringBitmap::clone`: an equal, independent copy.
#[verifier::external_body]
pub(crate) fn bitmap_clone(b: &RoaringBitmap) -> (r: RoaringBitmap)
    ensures
        bitmap_ids(r) == bitmap_ids(*b),
        bitmap_ids(r).finite(),
{
    b.clone()
}

/// Relies on `roaring::RoaringBitmap::iter`, whose documentation guarantees
/// that values come out ordered by value: the set's elements, strictly
/// ascending.
#[verifier::external_body]
pub(crate) fn bitmap_to_vec(b: &RoaringBitmap) -> (r: Vec<u32>)
    ensures
        forall|i: int, j: int| 0 <= i < j < r@.len() ==> r@[i] < r@[j],
        forall|id: u32| r@.contains(id) <==> bitmap_ids(*b).contains(id),
{
    b.iter().collect()
}

} // verus!
