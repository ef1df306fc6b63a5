//! Filling in the statistics of every cluster of a table.

use crate::cluster::ClusterModel;
use crate::cluster::ClusterTable;
use crate::error::Error;
use crate::graph::Graph;
use crate::model::GraphModel;
use crate::stats::cluster_stats;
use crate::stats::ClusterStats;
use vstd::prelude::*;

verus! {

/// `out` is `base` with the statistics of each cluster filled in from the
/// graph `g`: labels and members are those of `base`, every member is a node
/// of `g`, and the statistics are those of the members.
pub open spec fn populated_from(g: GraphModel, out: Seq<ClusterModel>, base: Seq<ClusterModel>) -> bool {
    &&& out.len() == base.len()
    &&& forall|i: int| 0 <= i < base.len() ==> (#[trigger] out[i]).label == base[i].label
    &&& forall|i: int| 0 <= i < base.len() ==> (#[trigger] out[i]).members == base[i].members
    &&& forall|i: int| 0 <= i < base.len() ==> g.covers((#[trigger] base[i]).members)
    &&& forall|i: int|
        0 <= i < base.len() ==> (#[trigger] out[i]).stats is Some && out[i].stats->0.describes(
            g,
            base[i].members,
        )
}

/// The statistics of each row of `df`, in the order of the rows, or the
/// error of the first row that has a member outside the graph.
fn all_stats(g: &Graph, df: &ClusterTable) -> (computed: Result<Vec<ClusterStats>, Error>)
    ensures
        match computed {
            Ok(stats) => {
                &&& stats@.len() == df@.len()
                &&& forall|i: int| 0 <= i < df@.len() ==> g@.covers((#[trigger] df@[i]).members)
                &&& forall|i: int|
                    0 <= i < df@.len() ==> (#[trigger] stats@[i]).describes(
                        g@,
                        df@[i].members,
                    )
            },
            Err(e) => e == Error::InvalidNodeId && exists|i: int|
                0 <= i < df@.len() && !g@.covers((#[trigger] df@[i]).members),
        },
{
    let mut stats: Vec<ClusterStats> = Vec::new();
    let mut i: usize = 0;
    while i < df.rows.len()
        invariant
            i <= df.rows@.len(),
            stats@.len() == i,
            forall|k: int| 0 <= k < i ==> g@.covers((#[trigger] df@[k]).members),
            forall|k: int|
                0 <= k < i ==> (#[trigger] stats@[k]).describes(g@, df@[k].members),
        decreases df.rows@.len() - i,
    {
        match cluster_stats(g, &df.rows[i].nodes) {
            Ok(one) => {
                proof {
                    assert(df@[i as int].members == df.rows@[i as int]@.members);
                }
                stats.push(one);
            },
            Err(e) => {
                proof {
                    assert(!g@.covers(df@[i as int].members));
                }
                return Err(e);
            },
        }
        i += 1;
    }
    Ok(stats)
}

/// Computes the statistics of every cluster of `df` in the graph `g` and
/// stores them in its rows. When a cluster has a member that is no node of
/// `g`, the table is left as it was.
pub fn populate_clusdf(g: &Graph, df: &mut ClusterTable) -> (done: Result<(), Error>)
    ensures
        match done {
            Ok(_) => populated_from(g@, final(df)@, old(df)@),
            Err(e) => e == Error::InvalidNodeId && *final(df) == *old(df) && exists|i: int|
                0 <= i < old(df)@.len() && !g@.covers((#[trigger] old(df)@[i]).members),
        },
{
    let stats = match all_stats(g, df) {
        Ok(stats) => stats,
        Err(e) => {
            return Err(e);
        },
    };
    let ghost base = df.rows@;
    let mut i: usize = 0;
    while i < df.rows.len()
        invariant
            i <= df.rows@.len(),
            base == old(df).rows@,
            df.rows@.len() == base.len(),
            stats@.len() == base.len(),
            forall|k: int| 0 <= k < base.len() ==> (#[trigger] df.rows@[k]).label == base[k].label,
            forall|k: int| 0 <= k < base.len() ==> (#[trigger] df.rows@[k]).nodes == base[k].nodes,
            forall|k: int| 0 <= k < i ==> (#[trigger] df.rows@[k]).stats == Some(stats@[k]),
        decreases df.rows@.len() - i,
    {
        let one = stats[i];
        df.rows[i].stats = Some(one);
        i += 1;
    }
    proof {
        let out = df@;
        let first = old(df)@;
        assert forall|k: int| 0 <= k < first.len() implies (#[trigger] out[k]).label
            == first[k].label by {
            assert(df.rows@[k].label == base[k].label);
        }
        assert forall|k: int| 0 <= k < first.len() implies (#[trigger] out[k]).members
            == first[k].members by {
            assert(df.rows@[k].nodes == base[k].nodes);
        }
        assert forall|k: int| 0 <= k < first.len() implies (#[trigger] out[k]).stats is Some
            && out[k].stats->0.describes(g@, first[k].members) by {
            assert(df.rows@[k].stats == Some(stats@[k]));
            assert(stats@[k].describes(g@, first[k].members));
        }
    }
    Ok(())
}

} // verus!
