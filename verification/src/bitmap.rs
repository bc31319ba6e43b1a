//! Sets of record offsets, held as compressed bitmaps of the `roaring` crate.

use roaring::RoaringBitmap;
use vstd::prelude::*;

verus! {

/// `roaring::RoaringBitmap`, a compressed set of 32-bit numbers.
#[verifier::external_type_specification]
#[verifier::external_body]
pub struct ExternalBitmap(RoaringBitmap);

/// The numbers that a bitmap holds.
pub uninterp spec fn members(b: RoaringBitmap) -> Set<u32>;

/// `RoaringBitmap::new` makes an empty set.
pub assume_specification[ RoaringBitmap::new ]() -> (b: RoaringBitmap)
    ensures
        members(b) == Set::<u32>::empty(),
;

/// `RoaringBitmap::insert` adds a number and says whether it was new.
pub assume_specification[ RoaringBitmap::insert ](b: &mut RoaringBitmap, value: u32) -> (r: bool)
    ensures
        members(*final(b)) == members(*old(b)).insert(value),
        r == !members(*old(b)).contains(value),
;

/// `RoaringBitmap::remove` takes a number out and says whether it was there.
pub assume_specification[ RoaringBitmap::remove ](b: &mut RoaringBitmap, value: u32) -> (r: bool)
    ensures
        members(*final(b)) == members(*old(b)).remove(value),
        r == members(*old(b)).contains(value),
;

/// `RoaringBitmap::contains` says whether a number is in the set.
pub assume_specification[ RoaringBitmap::contains ](b: &RoaringBitmap, value: u32) -> (r: bool)
    ensures
        r == members(*b).contains(value),
;

/// `RoaringBitmap::is_empty` says whether the set has no numbers.
pub assume_specification[ RoaringBitmap::is_empty ](b: &RoaringBitmap) -> (r: bool)
    ensures
        r == (members(*b) =~= Set::<u32>::empty()),
;

/// `RoaringBitmap::len` counts the numbers of the set.
pub assume_specification[ RoaringBitmap::len ](b: &RoaringBitmap) -> (r: u64)
    ensures
        r == members(*b).len(),
;

/// `RoaringBitmap::clone` makes a bitmap with the same numbers.
#[verifier::external_body]
pub(crate) fn copied(b: &RoaringBitmap) -> (r: RoaringBitmap)
    ensures
        members(r) == members(*b),
{
    b.clone()
}

/// The `|=` of bitmaps adds the numbers of the other set.
#[verifier::external_body]
pub(crate) fn unite(a: &mut RoaringBitmap, b: &RoaringBitmap)
    ensures
        members(*final(a)) == members(*old(a)).union(members(*b)),
{
    *a |= b;
}

/// The `&=` of bitmaps keeps the numbers that the other set has too.
#[verifier::external_body]
pub(crate) fn intersect(a: &mut RoaringBitmap, b: &RoaringBitmap)
    ensures
        members(*final(a)) == members(*old(a)).intersect(members(*b)),
{
    *a &= b;
}

/// The `-=` of bitmaps takes out the numbers of the other set.
#[verifier::external_body]
pub(crate) fn subtract(a: &mut RoaringBitmap, b: &RoaringBitmap)
    ensures
        members(*final(a)) == members(*old(a)).difference(members(*b)),
{
    *a -= b;
}

/// `RoaringBitmap::iter` visits each number of the set once, in ascending order.
#[verifier::external_body]
pub(crate) fn ascending(b: &RoaringBitmap) -> (r: Vec<u32>)
    ensures
        forall|i: int, j: int| 0 <= i < j < r@.len() ==> r@[i] < r@[j],
        forall|v: u32| members(*b).contains(v) <==> r@.contains(v),
{
    b.iter().collect()
}

} // verus!
