//! Clusters and tables of clusters.

use crate::bitmap::bitmap_members;
use crate::bitmap::bitmap_union;
use crate::bitmap::members_of_any;
use crate::stats::ClusterStats;
use roaring::RoaringBitmap;
use vstd::prelude::*;

verus! {

/// The name of a cluster: a number or a string.
#[derive(Debug, PartialEq, Eq)]
pub enum Label {
    Int(u32),
    Str(String),
}

impl Label {
    /// A copy of the label.
    pub fn duplicate(&self) -> (copy: Label)
        ensures
            copy == *self,
    {
        match self {
            Label::Int(number) => Label::Int(*number),
            Label::Str(text) => Label::Str(text.clone()),
        }
    }
}

/// A copy of a label that may be missing.
pub fn duplicate_label(label: &Option<Label>) -> (copy: Option<Label>)
    ensures
        copy == *label,
{
    match label {
        Some(l) => Some(l.duplicate()),
        None => None,
    }
}

/// What a cluster is, apart from how its members are stored.
pub struct ClusterModel {
    pub label: Option<Label>,
    pub members: Set<u32>,
    pub stats: Option<ClusterStats>,
}

/// A cluster: its label, which is missing on clusters that the engine made
/// up itself, its members, and its statistics once they are computed.
pub struct Cluster {
    pub label: Option<Label>,
    pub nodes: RoaringBitmap,
    pub stats: Option<ClusterStats>,
}

impl View for Cluster {
    type V = ClusterModel;

    open spec fn view(&self) -> ClusterModel {
        ClusterModel { label: self.label, members: bitmap_members(self.nodes), stats: self.stats }
    }
}

/// The rows of a table as models.
pub open spec fn models(rows: Seq<Cluster>) -> Seq<ClusterModel> {
    Seq::new(rows.len(), |i: int| rows[i]@)
}

/// The nodes that belong to at least one of the clusters.
pub open spec fn cover(rows: Seq<ClusterModel>) -> Set<u32> {
    Set::new(|x: u32| exists|i: int| 0 <= i < rows.len() && #[trigger] rows[i].members.contains(x))
}

/// A table of clusters, one per row.
pub struct ClusterTable {
    pub rows: Vec<Cluster>,
}

impl View for ClusterTable {
    type V = Seq<ClusterModel>;

    open spec fn view(&self) -> Seq<ClusterModel> {
        models(self.rows@)
    }
}

/// The union of the member sets of `rows`.
pub fn cover_of(rows: &Vec<Cluster>) -> (all: RoaringBitmap)
    ensures
        bitmap_members(all) == cover(models(rows@)),
{
    let mut sets: Vec<&RoaringBitmap> = Vec::new();
    let mut i: usize = 0;
    while i < rows.len()
        invariant
            i <= rows@.len(),
            sets@.len() == i,
            forall|k: int| 0 <= k < i ==> *(#[trigger] sets@[k]) == rows@[k].nodes,
        decreases rows@.len() - i,
    {
        sets.push(&rows[i].nodes);
        i += 1;
    }
    let all = bitmap_union(&sets);
    proof {
        let ms = models(rows@);
        assert forall|x: u32| members_of_any(sets@).contains(x) <==> cover(ms).contains(x) by {
            if members_of_any(sets@).contains(x) {
                let k = choose|k: int|
                    0 <= k < sets@.len() && #[trigger] bitmap_members(*sets@[k]).contains(x);
                assert(ms[k].members.contains(x));
            }
            if cover(ms).contains(x) {
                let k = choose|k: int| 0 <= k < ms.len() && #[trigger] ms[k].members.contains(x);
                assert(bitmap_members(*sets@[k]).contains(x));
            }
        }
        assert(members_of_any(sets@) =~= cover(ms));
    }
    all
}

impl ClusterTable {
    /// A table with the given rows.
    pub fn new(rows: Vec<Cluster>) -> (table: ClusterTable)
        ensures
            table.rows == rows,
    {
        ClusterTable { rows }
    }

    /// The number of rows.
    pub fn len(&self) -> (count: usize)
        ensures
            count == self@.len(),
    {
        self.rows.len()
    }

    /// For each row, whether the cluster has exactly one member.
    pub fn singletons(&self) -> (flags: Vec<bool>)
        ensures
            flags@.len() == self@.len(),
            forall|i: int|
                0 <= i < self@.len() ==> (#[trigger] flags@[i]) == (self@[i].members.len()
                    == 1),
    {
        let mut flags: Vec<bool> = Vec::new();
        let mut i: usize = 0;
        while i < self.rows.len()
            invariant
                i <= self.rows@.len(),
                flags@.len() == i,
                forall|k: int|
                    0 <= k < i ==> (#[trigger] flags@[k]) == (self@[k].members.len() == 1),
            decreases self.rows@.len() - i,
        {
            flags.push(self.rows[i].nodes.len() == 1);
            i += 1;
        }
        flags
    }

    /// Whether some cluster has exactly one member.
    pub fn has_singletons(&self) -> (found: bool)
        ensures
            found == exists|i: int|
                0 <= i < self@.len() && (#[trigger] self@[i]).members.len() == 1,
    {
        let mut i: usize = 0;
        while i < self.rows.len()
            invariant
                i <= self.rows@.len(),
                forall|k: int| 0 <= k < i ==> (#[trigger] self@[k]).members.len() != 1,
            decreases self.rows@.len() - i,
        {
            if self.rows[i].nodes.len() == 1 {
                proof {
                    assert(self@[i as int].members.len() == 1);
                }
                return true;
            }
            i += 1;
        }
        false
    }

    /// The union of the member sets of all rows.
    pub fn cover(&self) -> (all: RoaringBitmap)
        ensures
            bitmap_members(all) == cover(self@),
    {
        cover_of(&self.rows)
    }
}

} // verus!
