//! Sets of ids of either width behind one interface: node ids in a 32-bit
//! bitmap, edge ids in a 64-bit treemap.

use crate::bitmap::bitmap_from_sorted;
use crate::bitmap::bitmap_members;
use crate::bitmap::bitmap_to_vec;
use crate::bitmap::bitmap_union;
use crate::bitmap::lemma_id_set_finite;
use crate::bitmap::members_of_any;
use crate::bitmap::strictly_ascending;
use crate::error::Error;
use crate::treemap::ids_of_any;
use crate::treemap::lemma_countable;
use crate::treemap::strictly_ascending_ids;
use crate::treemap::treemap_from_sorted;
use crate::treemap::treemap_members;
use crate::treemap::treemap_to_vec;
use crate::treemap::treemap_union;
use roaring::RoaringBitmap;
use roaring::RoaringTreemap;
use vstd::prelude::*;

verus! {

/// A compressed set of ids.
pub enum CompressedSet {
    /// Ids of 32 bits.
    Small(RoaringBitmap),
    /// Ids of 64 bits.
    Big(RoaringTreemap),
}

/// 32-bit ids as 64-bit ids.
pub open spec fn widen() -> spec_fn(u32) -> u64 {
    |x: u32| x as u64
}

/// A set of 32-bit ids as a set of 64-bit ids.
pub open spec fn widened(s: Set<u32>) -> Set<u64> {
    s.map(widen())
}

/// The ids that are in at least one of the sets.
pub open spec fn union_of(sets: Seq<Set<u64>>) -> Set<u64> {
    Set::new(|x: u64| exists|i: int| 0 <= i < sets.len() && #[trigger] sets[i].contains(x))
}

impl View for CompressedSet {
    type V = Set<u64>;

    open spec fn view(&self) -> Set<u64> {
        match self {
            CompressedSet::Small(b) => widened(bitmap_members(*b)),
            CompressedSet::Big(t) => treemap_members(*t),
        }
    }
}

/// The sets as mathematical sets.
pub open spec fn views(sets: Seq<CompressedSet>) -> Seq<Set<u64>> {
    Seq::new(sets.len(), |i: int| sets[i]@)
}

/// Widening keeps the ids apart: a set has as many members after it as
/// before, and holds the widened ids and no others.
pub proof fn lemma_widened(s: Set<u32>)
    ensures
        widened(s).finite(),
        widened(s).len() == s.len(),
        forall|x: u32| s.contains(x) <==> #[trigger] widened(s).contains(x as u64),
        forall|y: u64| #[trigger] widened(s).contains(y) ==> y <= u32::MAX,
{
    lemma_id_set_finite(s);
    assert(vstd::relations::injective_on(widen(), s));
    vstd::set_lib::lemma_map_size(s, widened(s), widen());
    assert forall|x: u32| s.contains(x) <==> #[trigger] widened(s).contains(x as u64) by {
        if s.contains(x) {
            assert(widen()(x) == x as u64);
        }
        if widened(s).contains(x as u64) {
            let w = choose|w: u32| s.contains(w) && x as u64 == widen()(w);
            assert(w == x);
        }
    }
    assert forall|y: u64| #[trigger] widened(s).contains(y) implies y <= u32::MAX by {
        let w = choose|w: u32| s.contains(w) && y == widen()(w);
    }
}

/// Widening goes through unions.
pub proof fn lemma_widened_union(a: Set<u32>, b: Set<u32>)
    ensures
        widened(a.union(b)) == widened(a).union(widened(b)),
{
    lemma_widened(a);
    lemma_widened(b);
    lemma_widened(a.union(b));
    assert forall|y: u64| widened(a.union(b)).contains(y) <==> widened(a).union(
        widened(b),
    ).contains(y) by {
        if y <= u32::MAX {
            let x = y as u32;
            assert(x as u64 == y);
        }
    }
    assert(widened(a.union(b)) =~= widened(a).union(widened(b)));
}

/// Widening goes through intersections.
pub proof fn lemma_widened_intersect(a: Set<u32>, b: Set<u32>)
    ensures
        widened(a.intersect(b)) == widened(a).intersect(widened(b)),
{
    lemma_widened(a);
    lemma_widened(b);
    lemma_widened(a.intersect(b));
    assert forall|y: u64| widened(a.intersect(b)).contains(y) <==> widened(a).intersect(
        widened(b),
    ).contains(y) by {
        if y <= u32::MAX {
            let x = y as u32;
            assert(x as u64 == y);
        }
    }
    assert(widened(a.intersect(b)) =~= widened(a).intersect(widened(b)));
}

/// One more bitmap adds its ids to those of the others.
pub proof fn lemma_members_of_any_push(sets: Seq<&RoaringBitmap>, b: &RoaringBitmap)
    ensures
        members_of_any(sets.push(b)) == members_of_any(sets).union(bitmap_members(*b)),
{
    let more = sets.push(b);
    assert forall|x: u32| members_of_any(more).contains(x) <==> members_of_any(sets).union(
        bitmap_members(*b),
    ).contains(x) by {
        if members_of_any(more).contains(x) {
            let i = choose|i: int|
                0 <= i < more.len() && #[trigger] bitmap_members(*more[i]).contains(x);
            if i < sets.len() {
                assert(bitmap_members(*sets[i]).contains(x));
            }
        }
        if members_of_any(sets).contains(x) {
            let i = choose|i: int|
                0 <= i < sets.len() && #[trigger] bitmap_members(*sets[i]).contains(x);
            assert(bitmap_members(*more[i]).contains(x));
        }
        if bitmap_members(*b).contains(x) {
            assert(bitmap_members(*more[sets.len() as int]).contains(x));
        }
    }
    assert(members_of_any(more) =~= members_of_any(sets).union(bitmap_members(*b)));
}

/// One more treemap adds its ids to those of the others.
pub proof fn lemma_ids_of_any_push(sets: Seq<&RoaringTreemap>, t: &RoaringTreemap)
    ensures
        ids_of_any(sets.push(t)) == ids_of_any(sets).union(treemap_members(*t)),
{
    let more = sets.push(t);
    assert forall|x: u64| ids_of_any(more).contains(x) <==> ids_of_any(sets).union(
        treemap_members(*t),
    ).contains(x) by {
        if ids_of_any(more).contains(x) {
            let i = choose|i: int|
                0 <= i < more.len() && #[trigger] treemap_members(*more[i]).contains(x);
            if i < sets.len() {
                assert(treemap_members(*sets[i]).contains(x));
            }
        }
        if ids_of_any(sets).contains(x) {
            let i = choose|i: int|
                0 <= i < sets.len() && #[trigger] treemap_members(*sets[i]).contains(x);
            assert(treemap_members(*more[i]).contains(x));
        }
        if treemap_members(*t).contains(x) {
            assert(treemap_members(*more[sets.len() as int]).contains(x));
        }
    }
    assert(ids_of_any(more) =~= ids_of_any(sets).union(treemap_members(*t)));
}

/// One more set adds its ids to the union of the others.
pub proof fn lemma_union_of_push(sets: Seq<Set<u64>>, s: Set<u64>)
    ensures
        union_of(sets.push(s)) == union_of(sets).union(s),
{
    let more = sets.push(s);
    assert forall|x: u64| union_of(more).contains(x) <==> union_of(sets).union(s).contains(x) by {
        if union_of(more).contains(x) {
            let i = choose|i: int| 0 <= i < more.len() && #[trigger] more[i].contains(x);
            if i < sets.len() {
                assert(sets[i].contains(x));
            }
        }
        if union_of(sets).contains(x) {
            let i = choose|i: int| 0 <= i < sets.len() && #[trigger] sets[i].contains(x);
            assert(more[i].contains(x));
        }
        if s.contains(x) {
            assert(more[sets.len() as int].contains(x));
        }
    }
    assert(union_of(more) =~= union_of(sets).union(s));
}

/// A set of widened 32-bit ids is not the set of all 64-bit ids.
proof fn lemma_small_not_full(s: Set<u32>)
    ensures
        widened(s) != Set::<u64>::full(),
{
    lemma_widened(s);
    assert(!widened(s).contains(u64::MAX));
    assert(Set::<u64>::full().contains(u64::MAX));
}

/// What a set that lacks an id has in common with another set is few
/// enough for 64 bits to count.
proof fn lemma_part_countable(a: Set<u64>, b: Set<u64>)
    requires
        a != Set::<u64>::full(),
    ensures
        a.intersect(b).finite(),
        a.intersect(b).len() <= u64::MAX,
{
    lemma_countable(a);
    vstd::set_lib::lemma_len_intersect(a, b);
    crate::treemap::lemma_edge_set_finite(a.intersect(b));
}

/// The ids of a bitmap as a treemap.
fn widen_bitmap(b: &RoaringBitmap) -> (wide: RoaringTreemap)
    ensures
        treemap_members(wide) == widened(bitmap_members(*b)),
{
    let ids = widen_ids(&bitmap_to_vec(b));
    proof {
        lemma_widened(bitmap_members(*b));
    }
    match treemap_from_sorted(&ids) {
        Ok(wide) => wide,
        Err(_) => vstd::pervasive::unreached(),
    }
}

/// Ascending 32-bit ids as ascending 64-bit ids.
fn widen_ids(narrow: &Vec<u32>) -> (ids: Vec<u64>)
    requires
        strictly_ascending(narrow@),
    ensures
        strictly_ascending_ids(ids@),
        ids@.to_set() == widened(narrow@.to_set()),
{
    let mut ids: Vec<u64> = Vec::new();
    let mut i: usize = 0;
    while i < narrow.len()
        invariant
            i <= narrow@.len(),
            ids@.len() == i,
            forall|k: int| 0 <= k < i ==> ids@[k] == narrow@[k] as u64,
        decreases narrow@.len() - i,
    {
        ids.push(narrow[i] as u64);
        i += 1;
    }
    proof {
        lemma_widened(narrow@.to_set());
        assert forall|y: u64| ids@.to_set().contains(y) <==> widened(narrow@.to_set()).contains(
            y,
        ) by {
            if ids@.to_set().contains(y) {
                let k = choose|k: int| 0 <= k < ids@.len() && ids@[k] == y;
                assert(narrow@.to_set().contains(narrow@[k]));
            }
            if widened(narrow@.to_set()).contains(y) {
                let x = y as u32;
                assert(x as u64 == y);
                assert(narrow@.to_set().contains(x));
                let k = choose|k: int| 0 <= k < narrow@.len() && narrow@[k] == x;
                assert(ids@[k] == y);
            }
        }
        assert(ids@.to_set() =~= widened(narrow@.to_set()));
    }
    ids
}

impl CompressedSet {
    /// The set of the 32-bit ids of a strictly ascending list. A list that
    /// is not strictly ascending is refused.
    pub fn small_from_sorted(ids: &Vec<u32>) -> (made: Result<CompressedSet, Error>)
        ensures
            match made {
                Ok(set) => strictly_ascending(ids@) && set is Small && set@ == widened(
                    ids@.to_set(),
                ),
                Err(e) => e == Error::MalformedSet && !strictly_ascending(ids@),
            },
    {
        match bitmap_from_sorted(ids) {
            Ok(b) => Ok(CompressedSet::Small(b)),
            Err(_) => Err(Error::MalformedSet),
        }
    }

    /// The set of the 64-bit ids of a strictly ascending list. A list that
    /// is not strictly ascending is refused.
    pub fn big_from_sorted(ids: &Vec<u64>) -> (made: Result<CompressedSet, Error>)
        ensures
            match made {
                Ok(set) => strictly_ascending_ids(ids@) && set is Big && set@ == ids@.to_set(),
                Err(e) => e == Error::MalformedSet && !strictly_ascending_ids(ids@),
            },
    {
        match treemap_from_sorted(ids) {
            Ok(t) => Ok(CompressedSet::Big(t)),
            Err(_) => Err(Error::MalformedSet),
        }
    }

    /// The number of ids in the set; none for the one set that has more
    /// ids than 64 bits can count, the set of all 64-bit ids.
    pub fn len(&self) -> (count: Option<u64>)
        ensures
            match count {
                Some(k) => k == self@.len(),
                None => self@ == Set::<u64>::full(),
            },
    {
        match self {
            CompressedSet::Small(b) => {
                proof {
                    lemma_widened(bitmap_members(*b));
                }
                Some(b.len())
            },
            CompressedSet::Big(t) => {
                if t.is_full() {
                    None
                } else {
                    proof {
                        lemma_countable(treemap_members(*t));
                    }
                    Some(t.len())
                }
            },
        }
    }

    /// The number of ids that are in both sets; none where both are the set
    /// of all 64-bit ids.
    pub fn intersection_len(&self, other: &CompressedSet) -> (count: Option<u64>)
        ensures
            match count {
                Some(k) => k == self@.intersect(other@).len(),
                None => self@ == Set::<u64>::full() && other@ == Set::<u64>::full(),
            },
    {
        match (self, other) {
            (CompressedSet::Small(a), CompressedSet::Small(b)) => {
                proof {
                    lemma_widened_intersect(bitmap_members(*a), bitmap_members(*b));
                    lemma_widened(bitmap_members(*a).intersect(bitmap_members(*b)));
                }
                Some(a.intersection_len(b))
            },
            (CompressedSet::Small(a), CompressedSet::Big(t)) => {
                let wide = widen_bitmap(a);
                proof {
                    lemma_small_not_full(bitmap_members(*a));
                    lemma_part_countable(treemap_members(wide), treemap_members(*t));
                }
                Some(wide.intersection_len(t))
            },
            (CompressedSet::Big(t), CompressedSet::Small(b)) => {
                let wide = widen_bitmap(b);
                proof {
                    lemma_small_not_full(bitmap_members(*b));
                    lemma_part_countable(treemap_members(wide), treemap_members(*t));
                    assert(treemap_members(*t).intersect(treemap_members(wide))
                        =~= treemap_members(wide).intersect(treemap_members(*t)));
                }
                Some(t.intersection_len(&wide))
            },
            (CompressedSet::Big(s), CompressedSet::Big(t)) => {
                if s.is_full() && t.is_full() {
                    None
                } else {
                    proof {
                        if treemap_members(*s) != Set::<u64>::full() {
                            lemma_part_countable(treemap_members(*s), treemap_members(*t));
                        } else {
                            lemma_part_countable(treemap_members(*t), treemap_members(*s));
                            assert(treemap_members(*s).intersect(treemap_members(*t))
                                =~= treemap_members(*t).intersect(treemap_members(*s)));
                        }
                    }
                    Some(s.intersection_len(t))
                }
            },
        }
    }

    /// Whether `id` is in the set.
    pub fn contains(&self, id: u64) -> (found: bool)
        ensures
            found == self@.contains(id),
    {
        match self {
            CompressedSet::Small(b) => {
                proof {
                    lemma_widened(bitmap_members(*b));
                }
                if id > u32::MAX as u64 {
                    false
                } else {
                    b.contains(id as u32)
                }
            },
            CompressedSet::Big(t) => t.contains(id),
        }
    }

    /// The ids of the set in ascending order.
    pub fn to_vec(&self) -> (ids: Vec<u64>)
        ensures
            strictly_ascending_ids(ids@),
            ids@.to_set() == self@,
    {
        match self {
            CompressedSet::Small(b) => widen_ids(&bitmap_to_vec(b)),
            CompressedSet::Big(t) => treemap_to_vec(t),
        }
    }

    /// The union of the sets. It is a set of 32-bit ids when all of them
    /// are, and a set of 64-bit ids otherwise.
    pub fn union_all(sets: &Vec<CompressedSet>) -> (all: CompressedSet)
        ensures
            all@ == union_of(views(sets@)),
            all is Small <==> forall|i: int| 0 <= i < sets@.len() ==> (#[trigger] sets@[i]) is Small,
    {
        let mut smalls: Vec<&RoaringBitmap> = Vec::new();
        let mut bigs: Vec<&RoaringTreemap> = Vec::new();
        let mut i: usize = 0;
        proof {
            assert(views(sets@.take(0)) =~= Seq::<Set<u64>>::empty());
            assert(members_of_any(smalls@) =~= Set::<u32>::empty());
            assert(widened(Set::<u32>::empty()) =~= Set::<u64>::empty());
            assert(union_of(views(sets@.take(0))) =~= widened(members_of_any(smalls@)).union(
                ids_of_any(bigs@),
            ));
        }
        while i < sets.len()
            invariant
                i <= sets@.len(),
                union_of(views(sets@.take(i as int))) == widened(members_of_any(smalls@)).union(
                    ids_of_any(bigs@),
                ),
                bigs@.len() == 0 <==> forall|k: int| 0 <= k < i ==> (#[trigger] sets@[k]) is Small,
            decreases sets@.len() - i,
        {
            proof {
                assert(views(sets@.take(i + 1)) =~= views(sets@.take(i as int)).push(
                    sets@[i as int]@,
                ));
                lemma_union_of_push(views(sets@.take(i as int)), sets@[i as int]@);
            }
            match &sets[i] {
                CompressedSet::Small(b) => {
                    proof {
                        lemma_members_of_any_push(smalls@, b);
                        lemma_widened_union(members_of_any(smalls@), bitmap_members(*b));
                    }
                    smalls.push(b);
                },
                CompressedSet::Big(t) => {
                    proof {
                        lemma_ids_of_any_push(bigs@, t);
                    }
                    bigs.push(t);
                },
            }
            proof {
                assert(union_of(views(sets@.take(i + 1))) =~= widened(
                    members_of_any(smalls@),
                ).union(ids_of_any(bigs@)));
            }
            i += 1;
        }
        proof {
            assert(sets@.take(i as int) == sets@);
        }
        let small = bitmap_union(&smalls);
        if bigs.len() == 0 {
            proof {
                assert(ids_of_any(bigs@) =~= Set::<u64>::empty());
                assert(widened(members_of_any(smalls@)).union(ids_of_any(bigs@)) =~= widened(
                    members_of_any(smalls@),
                ));
            }
            CompressedSet::Small(small)
        } else {
            let wide = widen_bitmap(&small);
            proof {
                lemma_ids_of_any_push(bigs@, &wide);
            }
            bigs.push(&wide);
            let all = treemap_union(&bigs);
            proof {
                assert(treemap_members(all) =~= union_of(views(sets@)));
            }
            CompressedSet::Big(all)
        }
    }
}

/// The number of ids in each set; none for a set of all 64-bit ids.
pub fn rust_popcnt(sets: &Vec<CompressedSet>) -> (counts: Vec<Option<u64>>)
    ensures
        counts@.len() == sets@.len(),
        forall|i: int|
            0 <= i < sets@.len() ==> match #[trigger] counts@[i] {
                Some(k) => k == sets@[i]@.len(),
                None => sets@[i]@ == Set::<u64>::full(),
            },
{
    let mut counts: Vec<Option<u64>> = Vec::new();
    let mut i: usize = 0;
    while i < sets.len()
        invariant
            i <= sets@.len(),
            counts@.len() == i,
            forall|k: int|
                0 <= k < i ==> match #[trigger] counts@[k] {
                    Some(c) => c == sets@[k]@.len(),
                    None => sets@[k]@ == Set::<u64>::full(),
                },
        decreases sets@.len() - i,
    {
        counts.push(sets[i].len());
        i += 1;
    }
    counts
}

/// The union of the sets: a set of 32-bit ids when all of them are, and a
/// set of 64-bit ids otherwise.
pub fn rust_bitmap_union(sets: &Vec<CompressedSet>) -> (all: CompressedSet)
    ensures
        all@ == union_of(views(sets@)),
        all is Small <==> forall|i: int| 0 <= i < sets@.len() ==> (#[trigger] sets@[i]) is Small,
{
    CompressedSet::union_all(sets)
}

} // verus!
