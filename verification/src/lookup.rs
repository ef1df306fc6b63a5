//! Look-ups by external id and by component: component labels and sizes,
//! and node sets written out in external ids.

use crate::bitmap::bitmap_members;
use crate::bitmap::bitmap_to_vec;
use crate::bitmap::strictly_ascending;
use crate::components::is_largest;
use crate::components::CCLabels;
use crate::components::Cached;
use crate::error::Error;
use crate::graph::Graph;
use crate::model::GraphModel;
use roaring::RoaringBitmap;
use vstd::prelude::*;

verus! {

/// Every id that is there is the external id of a node.
pub open spec fn all_known(g: GraphModel, ids: Seq<Option<u32>>) -> bool {
    forall|i: int| 0 <= i < ids.len() ==> ((#[trigger] ids[i]) matches Some(v) ==> g.names.contains(v))
}

/// `out` holds, for each external id of `ids` that is there, the component
/// of its node, and nothing where no id is.
pub open spec fn labelled(g: GraphModel, labels: Seq<u32>, ids: Seq<Option<u32>>, out: Seq<Option<u32>>) -> bool {
    &&& out.len() == ids.len()
    &&& forall|i: int|
        0 <= i < ids.len() ==> (#[trigger] out[i]) == match ids[i] {
            Some(v) => Some(labels[g.names.index_of(v)]),
            None => None,
        }
}

/// Every component id that is there is the id of a component with a size.
pub open spec fn all_sized(sizes: Seq<u32>, components: Seq<Option<u32>>) -> bool {
    forall|i: int|
        0 <= i < components.len() ==> ((#[trigger] components[i]) matches Some(c) ==> c < sizes.len())
}

/// `out` holds, for each component id that is there, the size of the
/// component, and nothing where no id is.
pub open spec fn sized(sizes: Seq<u32>, components: Seq<Option<u32>>, out: Seq<Option<u32>>) -> bool {
    &&& out.len() == components.len()
    &&& forall|i: int|
        0 <= i < components.len() ==> (#[trigger] out[i]) == match components[i] {
            Some(c) => Some(sizes[c as int]),
            None => None,
        }
}

impl Graph {
    /// The number of connected components, once the labels are there.
    pub fn num_components(&self) -> (count: Cached<usize>)
        ensures
            match count {
                Cached::Ready(k) => self.cache().read() matches Cached::Ready(labels)
                    && k == labels.num_nodes@.len(),
                Cached::Failed(e) => self.cache().read() == Cached::<CCLabels>::Failed(e),
                Cached::Pending => self.cache().read() is Pending,
            },
    {
        match self.get_cc_labels() {
            Cached::Ready(labels) => Cached::Ready(labels.num_components()),
            Cached::Failed(e) => Cached::Failed(e),
            Cached::Pending => Cached::Pending,
        }
    }

    /// The number of nodes of the largest connected component, once the
    /// labels are there. A graph without components has none.
    pub fn largest_component(&self) -> (largest: Cached<u32>)
        ensures
            match largest {
                Cached::Ready(top) => self.cache().read() matches Cached::Ready(labels)
                    && is_largest(labels.num_nodes@, top),
                Cached::Failed(e) => self.cache().read() == Cached::<CCLabels>::Failed(e) || (
                self.cache().read() matches Cached::Ready(labels) && labels.num_nodes@.len() == 0
                    && e == Error::DegenerateGraph),
                Cached::Pending => self.cache().read() is Pending,
            },
    {
        match self.get_cc_labels() {
            Cached::Ready(labels) => match labels.largest_component() {
                Some(top) => Cached::Ready(top),
                None => Cached::Failed(Error::DegenerateGraph),
            },
            Cached::Failed(e) => Cached::Failed(e),
            Cached::Pending => Cached::Pending,
        }
    }
}

/// The component of the node of each external id of `ids`, once the
/// labels are there. An id that the graph does not know is an error.
pub fn rust_label_cc(g: &Graph, ids: &Vec<Option<u32>>) -> (found: Cached<Vec<Option<u32>>>)
    ensures
        match found {
            Cached::Ready(out) => g.cache().read() matches Cached::Ready(labels) && all_known(
                g@,
                ids@,
            ) && labelled(g@, labels.labels@, ids@, out@),
            Cached::Failed(e) => g.cache().read() == Cached::<CCLabels>::Failed(e) || (
            g.cache().read() is Ready && !all_known(g@, ids@) && e
                == Error::UntranslatableNodeReference),
            Cached::Pending => g.cache().read() is Pending,
        },
{
    let labels = match g.get_cc_labels() {
        Cached::Ready(labels) => labels,
        Cached::Failed(e) => {
            return Cached::Failed(e);
        },
        Cached::Pending => {
            return Cached::Pending;
        },
    };
    let mut out: Vec<Option<u32>> = Vec::new();
    let mut i: usize = 0;
    while i < ids.len()
        invariant
            i <= ids@.len(),
            labels.fits(g@.n()),
            g.cache().read() == Cached::Ready(*labels),
            out@.len() == i,
            forall|k: int| 0 <= k < i ==> ((#[trigger] ids@[k]) matches Some(v) ==> g@.names.contains(v)),
            forall|k: int|
                0 <= k < i ==> (#[trigger] out@[k]) == match ids@[k] {
                    Some(v) => Some(labels.labels@[g@.names.index_of(v)]),
                    None => None,
                },
        decreases ids@.len() - i,
    {
        match ids[i] {
            Some(v) => {
                match g.retrieve(v) {
                    Some(u) => {
                        out.push(Some(labels.labels[u as usize]));
                    },
                    None => {
                        proof {
                            assert(ids@[i as int] == Some(v));
                            assert(!g@.names.contains(v));
                            assert(!all_known(g@, ids@));
                        }
                        return Cached::Failed(Error::UntranslatableNodeReference);
                    },
                }
            },
            None => {
                out.push(None);
            },
        }
        i += 1;
    }
    Cached::Ready(out)
}

/// The size of each component of `components`, once the labels are there.
/// An id that is the id of no component is an error.
pub fn rust_label_cc_size(g: &Graph, components: &Vec<Option<u32>>) -> (found: Cached<
    Vec<Option<u32>>,
>)
    ensures
        match found {
            Cached::Ready(out) => g.cache().read() matches Cached::Ready(labels) && all_sized(
                labels.num_nodes@,
                components@,
            ) && sized(labels.num_nodes@, components@, out@),
            Cached::Failed(e) => g.cache().read() == Cached::<CCLabels>::Failed(e) || (
            g.cache().read() matches Cached::Ready(labels) && !all_sized(
                labels.num_nodes@,
                components@,
            ) && e == Error::InvalidNodeId),
            Cached::Pending => g.cache().read() is Pending,
        },
{
    let labels = match g.get_cc_labels() {
        Cached::Ready(labels) => labels,
        Cached::Failed(e) => {
            return Cached::Failed(e);
        },
        Cached::Pending => {
            return Cached::Pending;
        },
    };
    let mut out: Vec<Option<u32>> = Vec::new();
    let mut i: usize = 0;
    while i < components.len()
        invariant
            i <= components@.len(),
            out@.len() == i,
            g.cache().read() == Cached::Ready(*labels),
            forall|k: int|
                0 <= k < i ==> ((#[trigger] components@[k]) matches Some(c) ==> c
                    < labels.num_nodes@.len()),
            forall|k: int|
                0 <= k < i ==> (#[trigger] out@[k]) == match components@[k] {
                    Some(c) => Some(labels.num_nodes@[c as int]),
                    None => None,
                },
        decreases components@.len() - i,
    {
        match components[i] {
            Some(c) => {
                if c as usize >= labels.num_nodes.len() {
                    proof {
                        assert(components@[i as int] == Some(c));
                        assert(!all_sized(labels.num_nodes@, components@));
                    }
                    return Cached::Failed(Error::InvalidNodeId);
                }
                out.push(Some(labels.num_nodes[c as usize]));
            },
            None => {
                out.push(None);
            },
        }
        i += 1;
    }
    Cached::Ready(out)
}

/// The external ids of the nodes `ids`, in their order.
pub open spec fn named(g: GraphModel, ids: Seq<u32>) -> Seq<u32> {
    Seq::new(ids.len(), |i: int| g.names[ids[i] as int])
}

/// `list` holds the external ids of the members of `set`, in ascending order
/// of the members.
pub open spec fn lists_members(g: GraphModel, set: Set<u32>, list: Seq<u32>) -> bool {
    exists|members: Seq<u32>|
        strictly_ascending(members) && members.to_set() == set && #[trigger] named(g, members)
            == list
}

/// Writes each node set out as the list of the external ids of its members,
/// in ascending order of the members. A set with a member that is no node of
/// the graph is an error.
pub fn rust_nodeset_to_list(g: &Graph, sets: &Vec<RoaringBitmap>) -> (lists: Result<
    Vec<Vec<u32>>,
    Error,
>)
    ensures
        match lists {
            Ok(out) => {
                &&& out@.len() == sets@.len()
                &&& forall|i: int| 0 <= i < sets@.len() ==> g@.covers(bitmap_members(#[trigger] sets@[i]))
                &&& forall|i: int|
                    0 <= i < sets@.len() ==> lists_members(
                        g@,
                        bitmap_members(sets@[i]),
                        (#[trigger] out@[i])@,
                    )
            },
            Err(e) => e == Error::InvalidNodeId && exists|i: int|
                0 <= i < sets@.len() && !g@.covers(bitmap_members(#[trigger] sets@[i])),
        },
{
    let n = g.n();
    let mut out: Vec<Vec<u32>> = Vec::new();
    let mut i: usize = 0;
    while i < sets.len()
        invariant
            n == g@.n(),
            g@.valid(),
            i <= sets@.len(),
            out@.len() == i,
            forall|k: int| 0 <= k < i ==> g@.covers(bitmap_members(#[trigger] sets@[k])),
            forall|k: int|
                0 <= k < i ==> lists_members(g@, bitmap_members(sets@[k]), (#[trigger] out@[k])@),
        decreases sets@.len() - i,
    {
        let members = bitmap_to_vec(&sets[i]);
        let ghost s = bitmap_members(sets@[i as int]);
        let mut list: Vec<u32> = Vec::new();
        let mut j: usize = 0;
        while j < members.len()
            invariant
                n == g@.n(),
                g@.valid(),
                i < sets@.len(),
                s == bitmap_members(sets@[i as int]),
                members@.to_set() == s,
                j <= members@.len(),
                list@.len() == j,
                forall|k: int| 0 <= k < j ==> members@[k] < n,
                forall|k: int| 0 <= k < j ==> (#[trigger] list@[k]) == g@.names[members@[k] as int],
            decreases members@.len() - j,
        {
            let u = members[j];
            if u >= n {
                proof {
                    assert(members@.to_set().contains(members@[j as int]));
                    assert(!g@.covers(bitmap_members(sets@[i as int])));
                }
                return Err(Error::InvalidNodeId);
            }
            list.push(g.name(u));
            j += 1;
        }
        proof {
            assert forall|u: u32| s.contains(u) implies u < n by {
                assert(members@.to_set().contains(u));
                let k = choose|k: int| 0 <= k < members@.len() && members@[k] == u;
            }
            assert(named(g@, members@) =~= list@);
        }
        out.push(list);
        i += 1;
    }
    Ok(out)
}

} // verus!
