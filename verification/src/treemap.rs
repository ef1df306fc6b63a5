//! Edge-id sets: `roaring::RoaringTreemap` as Verus sees it.
//!
//! As with the node-id bitmaps, the verifier knows a treemap only by
//! [`treemap_members`], the set of the 64-bit ids it holds, and by the
//! contracts below, which are taken on trust from the `roaring` crate.

use roaring::MultiOps;
use roaring::NonSortedIntegers;
use roaring::RoaringTreemap;
use vstd::prelude::*;

verus! {

/// `roaring::RoaringTreemap`, a compressed set of 64-bit ids. The verifier
/// sees nothing inside it.
#[verifier::external_type_specification]
#[verifier::external_body]
pub struct ExRoaringTreemap(RoaringTreemap);

/// The ids that a treemap holds.
pub uninterp spec fn treemap_members(t: RoaringTreemap) -> Set<u64>;

/// `s` lists its ids in strictly ascending order.
pub open spec fn strictly_ascending_ids(s: Seq<u64>) -> bool {
    forall|i: int, j: int| 0 <= i < j < s.len() ==> s[i] < s[j]
}

/// The ids held by at least one treemap of `sets`.
pub open spec fn ids_of_any(sets: Seq<&RoaringTreemap>) -> Set<u64> {
    Set::new(
        |x: u64|
            exists|i: int| 0 <= i < sets.len() && #[trigger] treemap_members(*sets[i]).contains(x),
    )
}

/// Trusted: `RoaringTreemap::len` is the number of distinct ids. The count
/// is added up in 64 bits, so a treemap that holds every 64-bit id is left
/// out.
pub assume_specification[ RoaringTreemap::len ](t: &RoaringTreemap) -> (count: u64)
    requires
        treemap_members(*t).len() <= u64::MAX,
    ensures
        count == treemap_members(*t).len(),
;

/// Trusted: `RoaringTreemap::is_full` tells whether the treemap holds every
/// 64-bit id.
pub assume_specification[ RoaringTreemap::is_full ](t: &RoaringTreemap) -> (full: bool)
    ensures
        full == (treemap_members(*t) == Set::<u64>::full()),
;

/// Trusted: `RoaringTreemap::contains` tells whether `value` is one of the
/// ids.
pub assume_specification[ RoaringTreemap::contains ](t: &RoaringTreemap, value: u64) -> (found:
    bool)
    ensures
        found == treemap_members(*t).contains(value),
;

/// Trusted: `RoaringTreemap::intersection_len` is the number of ids that
/// both treemaps hold. The count is added up in 64 bits, so two treemaps
/// that both hold every 64-bit id are left out.
pub assume_specification[ RoaringTreemap::intersection_len ](
    t: &RoaringTreemap,
    other: &RoaringTreemap,
) -> (count: u64)
    requires
        treemap_members(*t).intersect(treemap_members(*other)).len() <= u64::MAX,
    ensures
        count == treemap_members(*t).intersect(treemap_members(*other)).len(),
;

/// Trusted: `RoaringTreemap::from_sorted_iter` accepts exactly the strictly
/// ascending sequences, and the treemap it then returns holds the ids of the
/// sequence and no others.
#[verifier::external_body]
pub(crate) fn treemap_from_sorted(ids: &Vec<u64>) -> (made: Result<
    RoaringTreemap,
    NonSortedIntegers,
>)
    ensures
        made is Ok <==> strictly_ascending_ids(ids@),
        made matches Ok(t) ==> treemap_members(t) == ids@.to_set(),
{
    RoaringTreemap::from_sorted_iter(ids.iter().copied())
}

/// Trusted: `RoaringTreemap::iter` yields every id once, smallest first.
#[verifier::external_body]
pub(crate) fn treemap_to_vec(t: &RoaringTreemap) -> (ids: Vec<u64>)
    ensures
        strictly_ascending_ids(ids@),
        ids@.to_set() == treemap_members(*t),
{
    t.iter().collect()
}

/// Trusted: `MultiOps::union` over borrowed treemaps returns a treemap that
/// holds an id exactly when one of them holds it.
#[verifier::external_body]
pub(crate) fn treemap_union(sets: &Vec<&RoaringTreemap>) -> (all: RoaringTreemap)
    ensures
        treemap_members(all) == ids_of_any(sets@),
{
    sets.iter().copied().union()
}

/// Every set of 64-bit ids is finite.
pub proof fn lemma_edge_set_finite(s: Set<u64>)
    ensures
        s.finite(),
{
    <u64 as vstd::set_lib::FiniteFull>::full_properties();
    vstd::set_lib::lemma_set_subset_finite(Set::<u64>::full(), s);
}

/// A set of 64-bit ids that lacks one has few enough members for 64 bits to
/// count them.
pub proof fn lemma_countable(s: Set<u64>)
    requires
        s != Set::<u64>::full(),
    ensures
        s.finite(),
        s.len() <= u64::MAX,
{
    let full = Set::<u64>::full();
    <u64 as vstd::set_lib::FiniteFull>::full_properties();
    lemma_edge_set_finite(s);
    if forall|x: u64| s.contains(x) {
        assert(s =~= full);
    }
    let x = choose|x: u64| !s.contains(x);
    vstd::set_lib::range_set_properties::<u64>(0, u64::MAX);
    let most = Set::<u64>::range(0, u64::MAX);
    assert(full =~= most.insert(u64::MAX));
    assert(full.len() == u64::MAX + 1);
    assert(s.subset_of(full.remove(x)));
    vstd::set_lib::lemma_len_subset(s, full.remove(x));
}

} // verus!
