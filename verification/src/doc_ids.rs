//! Document-id sets, held in compressed bitmaps of the `roaring` crate.
//! The crate's operations are trusted through the wrappers below, whose
//! contracts speak of the abstract content set `doc_set`.

use vstd::prelude::*;

verus! {

#[verifier::external_type_specification]
#[verifier::external_body]
pub struct ExRoaringBitmap(roaring::RoaringBitmap);

/// The set of document identifiers a bitmap holds.
pub uninterp spec fn doc_set(r: roaring::RoaringBitmap) -> Set<u32>;

/// Relies on roaring::RoaringBitmap::new: an empty set.
#[verifier::external_body]
pub fn rb_new() -> (r: roaring::RoaringBitmap)
    ensures
        doc_set(r) == Set::<u32>::empty(),
        doc_set(r).finite(),
{
    roaring::RoaringBitmap::new()
}

/// Relies on roaring::RoaringBitmap::insert: adds one identifier.
#[verifier::external_body]
pub fn rb_insert(r: &mut roaring::RoaringBitmap, x: u32)
    ensures
        doc_set(*final(r)) == doc_set(*old(r)).insert(x),
        doc_set(*final(r)).finite(),
{
    r.insert(x);
}

/// Relies on roaring::RoaringBitmap::contains.
#[verifier::external_body]
pub fn rb_contains(r: &roaring::RoaringBitmap, x: u32) -> (b: bool)
    ensures
        b == doc_set(*r).contains(x),
{
    r.contains(x)
}

/// Relies on roaring::RoaringBitmap::len: the number of identifiers held.
#[verifier::external_body]
pub fn rb_len(r: &roaring::RoaringBitmap) -> (n: u64)
    ensures
        n == doc_set(*r).len(),
{
    r.len()
}

/// Relies on Clone for roaring::RoaringBitmap: an equal, independent set.
#[verifier::external_body]
pub fn rb_clone(r: &roaring::RoaringBitmap) -> (c: roaring::RoaringBitmap)
    ensures
        doc_set(c) == doc_set(*r),
        doc_set(c).finite(),
{
    r.clone()
}

/// Relies on BitAndAssign for roaring::RoaringBitmap: intersection.
#[verifier::external_body]
pub fn rb_and_assign(a: &mut roaring::RoaringBitmap, b: &roaring::RoaringBitmap)
    ensures
        doc_set(*final(a)) == doc_set(*old(a)).intersect(doc_set(*b)),
        doc_set(*final(a)).finite(),
{
    *a &= b;
}

/// Relies on BitOrAssign for roaring::RoaringBitmap: union.
#[verifier::external_body]
pub fn rb_or_assign(a: &mut roaring::RoaringBitmap, b: &roaring::RoaringBitmap)
    ensures
        doc_set(*final(a)) == doc_set(*old(a)).union(doc_set(*b)),
        doc_set(*final(a)).finite(),
{
    *a |= b;
}

/// Relies on SubAssign for roaring::RoaringBitmap: set difference.
#[verifier::external_body]
pub fn rb_sub_assign(a: &mut roaring::RoaringBitmap, b: &roaring::RoaringBitmap)
    ensures
        doc_set(*final(a)) == doc_set(*old(a)).difference(doc_set(*b)),
        doc_set(*final(a)).finite(),
{
    *a -= b;
}

/// Relies on roaring::RoaringBitmap::iter, whose values are guaranteed to
/// be ordered by value: the identifiers as a strictly increasing vector.
#[verifier::external_body]
pub fn rb_to_vec(r: &roaring::RoaringBitmap) -> (v: Vec<u32>)
    ensures
        v@.len() == doc_set(*r).len(),
        forall|i: int, j: int| 0 <= i < j < v@.len() ==> v@[i] < v@[j],
        forall|i: int| 0 <= i < v@.len() ==> doc_set(*r).contains(#[trigger] v@[i]),
        forall|x: u32|
            doc_set(*r).contains(x) ==> exists|i: int| 0 <= i < v@.len() && v@[i] == x,
{
    r.iter().collect()
}

} // verus!
