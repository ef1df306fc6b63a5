//! From lists of external ids to node sets.

use crate::bitmap::bitmap_members;
use crate::error::Error;
use crate::graph::Graph;
use crate::model::GraphModel;
use roaring::RoaringBitmap;
use vstd::prelude::*;

verus! {

impl GraphModel {
    /// How many entries of `ids` are external ids of no node.
    pub open spec fn unknown_ids(self, ids: Seq<u32>) -> nat
        decreases ids.len(),
    {
        if ids.len() == 0 {
            0
        } else {
            self.unknown_ids(ids.drop_last()) + if self.names.contains(ids.last()) {
                0nat
            } else {
                1nat
            }
        }
    }

    /// The nodes whose external id occurs in `ids`.
    pub open spec fn translated(self, ids: Seq<u32>) -> Set<u32> {
        Set::new(|u: u32| u < self.n() && ids.contains(self.names[u as int]))
    }

    /// The node set that a list stands for; a missing list stands for the
    /// empty set.
    pub open spec fn list_members(self, list: Option<Vec<u32>>) -> Set<u32> {
        match list {
            Some(ids) => self.translated(ids@),
            None => Set::empty(),
        }
    }

    /// The list names at most one id that the graph does not know.
    pub open spec fn list_translates(self, list: Option<Vec<u32>>) -> bool {
        match list {
            Some(ids) => self.unknown_ids(ids@) <= 1,
            None => true,
        }
    }
}

/// A longer list has no fewer unknown ids than its beginning.
pub proof fn lemma_unknown_ids_monotonic(g: GraphModel, ids: Seq<u32>, i: int)
    requires
        0 <= i <= ids.len(),
    ensures
        g.unknown_ids(ids.take(i)) <= g.unknown_ids(ids),
    decreases ids.len(),
{
    if i == ids.len() {
        assert(ids.take(i) == ids);
    } else {
        lemma_unknown_ids_monotonic(g, ids.drop_last(), i);
        assert(ids.drop_last().take(i) == ids.take(i));
    }
}

/// Translates the external ids of one cluster into a node set. One id that
/// the graph does not know is passed over; a second one is an error.
/// Repeated ids count once in the set.
pub fn translate_ids(g: &Graph, ids: &Vec<u32>) -> (translated: Result<RoaringBitmap, Error>)
    ensures
        match translated {
            Ok(set) => g@.unknown_ids(ids@) <= 1 && bitmap_members(set) == g@.translated(ids@),
            Err(e) => e == Error::UntranslatableNodeReference && g@.unknown_ids(ids@) >= 2,
        },
{
    let mut set = RoaringBitmap::new();
    let mut seen_unknown = false;
    let mut i: usize = 0;
    proof {
        use_type_invariant(g);
        g.lemma_valid();
        assert(bitmap_members(set) =~= g@.translated(ids@.take(0)));
    }
    while i < ids.len()
        invariant
            g@.valid(),
            i <= ids@.len(),
            bitmap_members(set) == g@.translated(ids@.take(i as int)),
            g@.unknown_ids(ids@.take(i as int)) == if seen_unknown {
                1nat
            } else {
                0nat
            },
        decreases ids@.len() - i,
    {
        let external = ids[i];
        let ghost before = ids@.take(i as int);
        let ghost after = ids@.take(i + 1);
        proof {
            assert(after.drop_last() == before);
            assert(after.last() == external);
        }
        match g.retrieve(external) {
            Some(u) => {
                set.insert(u);
                proof {
                    assert forall|x: u32|
                        bitmap_members(set).contains(x) <==> g@.translated(after).contains(x) by {
                        if x < g@.n() && after.contains(g@.names[x as int]) {
                            let k = choose|k: int|
                                0 <= k < after.len() && after[k] == g@.names[x as int];
                            if k < i {
                                assert(before[k] == g@.names[x as int]);
                            }
                        }
                        if x < g@.n() && before.contains(g@.names[x as int]) {
                            let k = choose|k: int|
                                0 <= k < before.len() && before[k] == g@.names[x as int];
                            assert(after[k] == g@.names[x as int]);
                        }
                        if x == u {
                            assert(after[i as int] == g@.names[x as int]);
                        }
                    }
                    assert(bitmap_members(set) =~= g@.translated(after));
                }
            },
            None => {
                if seen_unknown {
                    proof {
                        lemma_unknown_ids_monotonic(g@, ids@, i + 1);
                    }
                    return Err(Error::UntranslatableNodeReference);
                }
                seen_unknown = true;
                proof {
                    assert forall|x: u32|
                        bitmap_members(set).contains(x) <==> g@.translated(after).contains(x) by {
                        if x < g@.n() && after.contains(g@.names[x as int]) {
                            let k = choose|k: int|
                                0 <= k < after.len() && after[k] == g@.names[x as int];
                            if k < i {
                                assert(before[k] == g@.names[x as int]);
                            } else {
                                assert(g@.names.contains(external));
                            }
                        }
                        if x < g@.n() && before.contains(g@.names[x as int]) {
                            let k = choose|k: int|
                                0 <= k < before.len() && before[k] == g@.names[x as int];
                            assert(after[k] == g@.names[x as int]);
                        }
                    }
                    assert(bitmap_members(set) =~= g@.translated(after));
                }
            },
        }
        i += 1;
    }
    proof {
        assert(ids@.take(i as int) == ids@);
    }
    Ok(set)
}

/// Translates the lists of external ids of many clusters, one node set per
/// list and in the same order. A missing list gives the empty set.
pub fn node_list_to_bitmaps(g: &Graph, lists: &Vec<Option<Vec<u32>>>) -> (translated: Result<
    Vec<RoaringBitmap>,
    Error,
>)
    ensures
        match translated {
            Ok(sets) => {
                &&& sets@.len() == lists@.len()
                &&& forall|i: int| 0 <= i < lists@.len() ==> g@.list_translates(#[trigger] lists@[i])
                &&& forall|i: int|
                    0 <= i < lists@.len() ==> bitmap_members(#[trigger] sets@[i])
                        == g@.list_members(lists@[i])
            },
            Err(e) => e == Error::UntranslatableNodeReference && exists|i: int|
                0 <= i < lists@.len() && !g@.list_translates(#[trigger] lists@[i]),
        },
{
    let mut sets: Vec<RoaringBitmap> = Vec::new();
    let mut i: usize = 0;
    while i < lists.len()
        invariant
            i <= lists@.len(),
            sets@.len() == i,
            forall|k: int| 0 <= k < i ==> g@.list_translates(#[trigger] lists@[k]),
            forall|k: int|
                0 <= k < i ==> bitmap_members(#[trigger] sets@[k]) == g@.list_members(lists@[k]),
        decreases lists@.len() - i,
    {
        match &lists[i] {
            Some(ids) => {
                match translate_ids(g, ids) {
                    Ok(set) => {
                        sets.push(set);
                    },
                    Err(e) => {
                        proof {
                            assert(!g@.list_translates(lists@[i as int]));
                        }
                        return Err(e);
                    },
                }
            },
            None => {
                sets.push(RoaringBitmap::new());
            },
        }
        i += 1;
    }
    Ok(sets)
}

} // verus!
