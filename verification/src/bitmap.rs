//! Offset-id bitmaps, backed by the `roaring` crate.
//!
//! A `roaring::RoaringBitmap` is a compressed set of `u32` values. The
//! verified code sees each bitmap through `bitmap_seq`, the ascending
//! sequence of its values, and calls the crate only through the trusted
//! wrappers below.

use vstd::prelude::*;

use crate::sorted::cnt_lt;
use crate::sorted::sorted_insert;
use crate::sorted::sorted_strict;

verus! {

#[verifier::external_type_specification]
#[verifier::external_body]
pub struct ExRoaringBitmap(roaring::RoaringBitmap);

/// The values held by a roaring bitmap, as the ascending sequence in which
/// the crate iterates over them.
pub uninterp spec fn bitmap_seq(b: roaring::RoaringBitmap) -> Seq<u32>;

/// A candidate set over offset ids: either the listed values are the only
/// ones allowed, or every value but the listed ones is allowed.
pub enum SignedRoaringBitmap {
    Include(roaring::RoaringBitmap),
    Exclude(roaring::RoaringBitmap),
}

impl SignedRoaringBitmap {
    /// The values listed by the bitmap, whichever way it is signed.
    pub open spec fn listed(&self) -> Seq<u32> {
        match self {
            SignedRoaringBitmap::Include(b) => bitmap_seq(*b),
            SignedRoaringBitmap::Exclude(b) => bitmap_seq(*b),
        }
    }
}

/// Relies on roaring::RoaringBitmap::new: creates an empty bitmap.
#[verifier::external_body]
pub(crate) fn rb_new() -> (r: roaring::RoaringBitmap)
    ensures
        bitmap_seq(r) == Seq::<u32>::empty(),
{
    roaring::RoaringBitmap::new()
}

/// Relies on roaring's Clone impl: the copy holds the same values.
#[verifier::external_body]
pub(crate) fn rb_clone(b: &roaring::RoaringBitmap) -> (r: roaring::RoaringBitmap)
    ensures
        bitmap_seq(r) == bitmap_seq(*b),
{
    b.clone()
}

/// Relies on roaring::RoaringBitmap::insert: adds one value to the set.
#[verifier::external_body]
pub(crate) fn rb_insert(b: &mut roaring::RoaringBitmap, x: u32)
    requires
        sorted_strict(bitmap_seq(*old(b))),
    ensures
        bitmap_seq(*final(b)) == sorted_insert(bitmap_seq(*old(b)), x),
{
    b.insert(x);
}

/// Relies on roaring::RoaringBitmap::contains.
#[verifier::external_body]
pub(crate) fn rb_contains(b: &roaring::RoaringBitmap, x: u32) -> (r: bool)
    ensures
        r == bitmap_seq(*b).contains(x),
{
    b.contains(x)
}

/// Relies on roaring::RoaringBitmap::rank: the number of values at most `x`,
/// that is, the number of values strictly below `x + 1`.
#[verifier::external_body]
pub(crate) fn rb_rank(b: &roaring::RoaringBitmap, x: u32) -> (r: u64)
    ensures
        r as int == cnt_lt(bitmap_seq(*b), x as int + 1),
{
    b.rank(x)
}

/// Relies on roaring::RoaringBitmap::select: the `n`-th smallest value, or
/// `None` past the end.
#[verifier::external_body]
pub(crate) fn rb_select(b: &roaring::RoaringBitmap, n: u32) -> (r: Option<u32>)
    ensures
        match r {
            Some(v) => n < bitmap_seq(*b).len() && v == bitmap_seq(*b)[n as int],
            None => n >= bitmap_seq(*b).len(),
        },
{
    b.select(n)
}

/// Relies on roaring::RoaringBitmap::max: the largest value, if any.
#[verifier::external_body]
pub(crate) fn rb_max(b: &roaring::RoaringBitmap) -> (r: Option<u32>)
    ensures
        match r {
            Some(v) => bitmap_seq(*b).len() > 0 && v == bitmap_seq(*b)[bitmap_seq(*b).len() - 1],
            None => bitmap_seq(*b).len() == 0,
        },
{
    b.max()
}

/// Relies on roaring::RoaringBitmap::len: the number of distinct values.
#[verifier::external_body]
pub(crate) fn rb_len(b: &roaring::RoaringBitmap) -> (r: u64)
    ensures
        r == bitmap_seq(*b).len(),
{
    b.len()
}

/// Relies on roaring's BitOr impl: the union of the two sets.
#[verifier::external_body]
pub(crate) fn rb_union(a: &roaring::RoaringBitmap, b: &roaring::RoaringBitmap) -> (r:
    roaring::RoaringBitmap)
    ensures
        sorted_strict(bitmap_seq(r)),
        forall|x: u32|
            #[trigger] bitmap_seq(r).contains(x) <==> (bitmap_seq(*a).contains(x) || bitmap_seq(
                *b,
            ).contains(x)),
{
    a | b
}

/// Relies on roaring's BitAnd impl: the intersection of the two sets.
#[verifier::external_body]
pub(crate) fn rb_intersection(a: &roaring::RoaringBitmap, b: &roaring::RoaringBitmap) -> (r:
    roaring::RoaringBitmap)
    ensures
        sorted_strict(bitmap_seq(r)),
        forall|x: u32|
            #[trigger] bitmap_seq(r).contains(x) <==> (bitmap_seq(*a).contains(x) && bitmap_seq(
                *b,
            ).contains(x)),
{
    a & b
}

/// Relies on roaring's Sub impl: the values of `a` that are not in `b`.
#[verifier::external_body]
pub(crate) fn rb_difference(a: &roaring::RoaringBitmap, b: &roaring::RoaringBitmap) -> (r:
    roaring::RoaringBitmap)
    ensures
        sorted_strict(bitmap_seq(r)),
        forall|x: u32|
            #[trigger] bitmap_seq(r).contains(x) <==> (bitmap_seq(*a).contains(x) && !bitmap_seq(
                *b,
            ).contains(x)),
{
    a - b
}

/// Relies on roaring::RoaringBitmap::remove_smallest: drops the `n` smallest
/// values, which are the first `n` of the ascending sequence.
#[verifier::external_body]
pub(crate) fn rb_remove_smallest(b: &mut roaring::RoaringBitmap, n: u64)
    ensures
        bitmap_seq(*final(b)) == if n <= bitmap_seq(*old(b)).len() {
            bitmap_seq(*old(b)).subrange(n as int, bitmap_seq(*old(b)).len() as int)
        } else {
            Seq::<u32>::empty()
        },
{
    b.remove_smallest(n);
}

/// Relies on roaring::RoaringBitmap::from_sorted_iter, which accepts any
/// strictly ascending input.
#[verifier::external_body]
pub(crate) fn rb_from_sorted_vec(v: &Vec<u32>) -> (r: roaring::RoaringBitmap)
    requires
        sorted_strict(v@),
    ensures
        bitmap_seq(r) == v@,
{
    roaring::RoaringBitmap::from_sorted_iter(v.iter().copied()).unwrap()
}

/// Relies on roaring::RoaringBitmap::iter, which yields the values in
/// ascending order.
#[verifier::external_body]
pub(crate) fn rb_to_vec(b: &roaring::RoaringBitmap) -> (r: Vec<u32>)
    ensures
        r@ == bitmap_seq(*b),
{
    b.iter().collect()
}

} // verus!
