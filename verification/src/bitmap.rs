//! Node-id sets: `roaring::RoaringBitmap` as Verus sees it.
//!
//! The bitmap itself is opaque to the verifier. Everything proved about code
//! that uses one goes through [`bitmap_members`], the mathematical set of the
//! ids it holds, and through the contracts below, which are taken on trust
//! from the `roaring` crate.

use roaring::MultiOps;
use roaring::NonSortedIntegers;
use roaring::RoaringBitmap;
use vstd::prelude::*;

verus! {

/// `roaring::RoaringBitmap`, a compressed set of 32-bit ids. The verifier
/// sees nothing inside it.
#[verifier::external_type_specification]
#[verifier::external_body]
pub struct ExRoaringBitmap(RoaringBitmap);

/// `roaring::NonSortedIntegers`, the error of the constructors that take
/// ascending ids. The verifier sees nothing inside it.
#[verifier::external_type_specification]
#[verifier::external_body]
pub struct ExNonSortedIntegers(NonSortedIntegers);

/// The ids that a bitmap holds.
pub uninterp spec fn bitmap_members(b: RoaringBitmap) -> Set<u32>;

/// `s` lists its ids in strictly ascending order.
pub open spec fn strictly_ascending(s: Seq<u32>) -> bool {
    forall|i: int, j: int| 0 <= i < j < s.len() ==> s[i] < s[j]
}

/// The ids held by at least one bitmap of `sets`.
pub open spec fn members_of_any(sets: Seq<&RoaringBitmap>) -> Set<u32> {
    Set::new(
        |x: u32| exists|i: int| 0 <= i < sets.len() && #[trigger] bitmap_members(*sets[i]).contains(x),
    )
}

/// Trusted: `RoaringBitmap::new` returns a bitmap without ids.
pub assume_specification[ RoaringBitmap::new ]() -> (b: RoaringBitmap)
    ensures
        bitmap_members(b) == Set::<u32>::empty(),
;

/// Trusted: `RoaringBitmap::insert` adds `value` to the ids and leaves the
/// others as they were; it returns whether `value` was absent before.
pub assume_specification[ RoaringBitmap::insert ](b: &mut RoaringBitmap, value: u32) -> (added: bool)
    ensures
        bitmap_members(*final(b)) == bitmap_members(*old(b)).insert(value),
        added == !bitmap_members(*old(b)).contains(value),
;

/// Trusted: `RoaringBitmap::contains` tells whether `value` is one of the ids.
pub assume_specification[ RoaringBitmap::contains ](b: &RoaringBitmap, value: u32) -> (found: bool)
    ensures
        found == bitmap_members(*b).contains(value),
;

/// Trusted: `RoaringBitmap::len` is the number of distinct ids.
pub assume_specification[ RoaringBitmap::len ](b: &RoaringBitmap) -> (count: u64)
    ensures
        count == bitmap_members(*b).len(),
;

/// Trusted: `RoaringBitmap::intersection_len` is the number of ids that both
/// bitmaps hold.
pub assume_specification[ RoaringBitmap::intersection_len ](
    b: &RoaringBitmap,
    other: &RoaringBitmap,
) -> (count: u64)
    ensures
        count == bitmap_members(*b).intersect(bitmap_members(*other)).len(),
;

/// Trusted: `RoaringBitmap::iter` yields every id once, smallest first.
#[verifier::external_body]
pub(crate) fn bitmap_to_vec(b: &RoaringBitmap) -> (ids: Vec<u32>)
    ensures
        strictly_ascending(ids@),
        ids@.to_set() == bitmap_members(*b),
{
    b.iter().collect()
}

/// Trusted: `RoaringBitmap::from_sorted_iter` accepts exactly the strictly
/// ascending sequences, and the bitmap it then returns holds the ids of the
/// sequence and no others.
#[verifier::external_body]
pub(crate) fn bitmap_from_sorted(ids: &Vec<u32>) -> (made: Result<RoaringBitmap, NonSortedIntegers>)
    ensures
        made is Ok <==> strictly_ascending(ids@),
        made matches Ok(b) ==> bitmap_members(b) == ids@.to_set(),
{
    RoaringBitmap::from_sorted_iter(ids.iter().copied())
}

/// Trusted: `MultiOps::union` over borrowed bitmaps returns a bitmap that
/// holds an id exactly when one of them holds it.
#[verifier::external_body]
pub(crate) fn bitmap_union(sets: &Vec<&RoaringBitmap>) -> (all: RoaringBitmap)
    ensures
        bitmap_members(all) == members_of_any(sets@),
{
    sets.iter().copied().union()
}

/// Every set of 32-bit ids is finite.
pub proof fn lemma_id_set_finite(s: Set<u32>)
    ensures
        s.finite(),
{
    <u32 as vstd::set_lib::FiniteFull>::full_properties();
    vstd::set_lib::lemma_set_subset_finite(Set::<u32>::full(), s);
}

} // verus!
