//! Document sets: roaring bitmaps of document ids, seen as sets of `u32`.

use vstd::prelude::*;

verus! {

#[verifier::external_type_specification]
#[verifier::external_body]
pub struct ExRoaringBitmap(roaring::RoaringBitmap);

/// The set of document ids that a bitmap holds.
pub uninterp spec fn members(b: roaring::RoaringBitmap) -> Set<u32>;

/// The ids that a bitmap read from these bytes holds, in the standard
/// Roaring serialization; `None` where the bytes hold no such bitmap.
pub uninterp spec fn serialized_ids(bytes: Seq<u8>) -> Option<Set<u32>>;

/// Relies on `RoaringBitmap::deserialize_from`: reads a bitmap in the standard
/// Roaring serialization; `None` where the bytes hold none.
#[verifier::external_body]
pub(crate) fn deserialize(bytes: &[u8]) -> (r: Option<roaring::RoaringBitmap>)
    ensures
        serialized_ids(bytes@) is None <==> r is None,
        r matches Some(b) ==> serialized_ids(bytes@) == Some(members(b)),
{
    roaring::RoaringBitmap::deserialize_from(bytes).ok()
}

/// Relies on `RoaringBitmap::is_empty`: whether the set holds no id.
#[verifier::external_body]
pub(crate) fn is_empty(b: &roaring::RoaringBitmap) -> (r: bool)
    ensures
        r == (members(*b) == Set::<u32>::empty()),
{
    b.is_empty()
}

/// Relies on `BitAndAssign<&RoaringBitmap>`: keeps the ids that `other` holds too.
#[verifier::external_body]
pub(crate) fn intersect_with(b: &mut roaring::RoaringBitmap, other: &roaring::RoaringBitmap)
    ensures
        members(*final(b)) == members(*old(b)).intersect(members(*other)),
{
    *b &= other;
}

/// Relies on `SubAssign<&RoaringBitmap>`: drops the ids that `other` holds.
#[verifier::external_body]
pub(crate) fn remove_all(b: &mut roaring::RoaringBitmap, other: &roaring::RoaringBitmap)
    ensures
        members(*final(b)) == members(*old(b)).difference(members(*other)),
{
    *b -= other;
}

} // verus!
