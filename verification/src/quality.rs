//! What the quality scores of a clustering are computed from, and the
//! count of the nodes that a clustering covers.
//!
//! The scores themselves are floating-point numbers and are not computed
//! here. Here the whole-number terms of each score are drawn from the
//! statistics, and the cases in which a score is not defined are refused.

use crate::bitmap::lemma_id_set_finite;
use crate::cluster::cover;
use crate::cluster::ClusterModel;
use crate::cluster::ClusterTable;
use crate::error::Error;
use crate::graph::Graph;
use vstd::prelude::*;

verus! {

/// The terms of the modularity of one cluster,
/// `m / total_edges - resolution * (vol / (2 * total_edges))^2`.
#[derive(Clone, Copy, Debug, PartialEq, Eq, Structural)]
pub struct ModularityTerms {
    /// Edges inside the cluster.
    pub m: u64,
    /// Volume of the cluster: twice the edges inside it plus the edges that
    /// leave it.
    pub vol: u128,
    /// Edges of the graph; never 0.
    pub total_edges: u64,
}

/// The terms of the constant-Potts-model score of one cluster,
/// `m - resolution * n * (n - 1) / 2`.
#[derive(Clone, Copy, Debug, PartialEq, Eq, Structural)]
pub struct CpmTerms {
    /// Edges inside the cluster.
    pub m: u64,
    /// Nodes of the cluster.
    pub n: u64,
}

/// Some cluster has no statistics.
pub open spec fn some_unpopulated(rows: Seq<ClusterModel>) -> bool {
    exists|i: int| 0 <= i < rows.len() && (#[trigger] rows[i]).stats is None
}

/// The terms of the modularity of each cluster in a graph of `total` edges,
/// with the volume taken as twice the internal edges plus the cut edges; or
/// the reason for which there are none: a graph without edges first, a
/// cluster without statistics second.
pub open spec fn modularity_outcome(rows: Seq<ClusterModel>, total: u64) -> Result<
    Seq<ModularityTerms>,
    Error,
> {
    if total == 0 {
        Err(Error::DegenerateGraph)
    } else if some_unpopulated(rows) {
        Err(Error::MissingStatistics)
    } else {
        Ok(
            Seq::new(
                rows.len(),
                |i: int|
                    ModularityTerms {
                        m: rows[i].stats->0.m,
                        vol: (2 * rows[i].stats->0.m + rows[i].stats->0.c) as u128,
                        total_edges: total,
                    },
            ),
        )
    }
}

/// The terms of the constant-Potts-model score of each cluster, or
/// `MissingStatistics` when a cluster has no statistics.
pub open spec fn cpm_outcome(rows: Seq<ClusterModel>) -> Result<Seq<CpmTerms>, Error> {
    if some_unpopulated(rows) {
        Err(Error::MissingStatistics)
    } else {
        Ok(Seq::new(rows.len(), |i: int| CpmTerms { m: rows[i].stats->0.m, n: rows[i].stats->0.n }))
    }
}

/// The numbers of `sizes` added up.
pub open spec fn total_size(sizes: Seq<u64>) -> nat
    decreases sizes.len(),
{
    if sizes.len() == 0 {
        0
    } else {
        total_size(sizes.drop_last()) + sizes.last() as nat
    }
}

/// The sum of sizes stays below their number times the greatest 64-bit
/// number.
proof fn lemma_total_size_bound(sizes: Seq<u64>)
    ensures
        total_size(sizes) <= sizes.len() * u64::MAX,
    decreases sizes.len(),
{
    if sizes.len() > 0 {
        lemma_total_size_bound(sizes.drop_last());
        assert((sizes.len() - 1) * u64::MAX + u64::MAX == sizes.len() * u64::MAX)
            by (nonlinear_arith);
    }
}

/// The sum of the sizes of clusters whose member sets are not at hand. It
/// is the number of nodes that the clusters cover only where no node belongs
/// to two of them, and is greater otherwise; nothing here can tell which.
/// Where the member sets are at hand, [`ClusDataFrame::covered_num_nodes`]
/// counts the covered nodes exactly.
pub fn covered_num_nodes_from_sizes(sizes: &Vec<u64>) -> (sum: u128)
    ensures
        sum == total_size(sizes@),
{
    let mut sum: u128 = 0;
    let mut i: usize = 0;
    proof {
        assert(sizes@.take(0) == Seq::<u64>::empty());
    }
    while i < sizes.len()
        invariant
            i <= sizes@.len(),
            sum == total_size(sizes@.take(i as int)),
        decreases sizes@.len() - i,
    {
        proof {
            let next = sizes@.take(i + 1);
            assert(next.drop_last() == sizes@.take(i as int));
            assert(next.last() == sizes@[i as int]);
            lemma_total_size_bound(next);
            assert(next.len() * u64::MAX <= 0xffff_ffff_ffff_ffff * 0xffff_ffff_ffff_ffff)
                by (nonlinear_arith)
                requires
                    next.len() <= 0xffff_ffff_ffff_ffff,
            ;
        }
        sum = sum + sizes[i] as u128;
        i += 1;
    }
    proof {
        assert(sizes@.take(i as int) == sizes@);
    }
    sum
}

/// What can be asked of a table of clusters about the quality of the
/// clustering.
pub trait ClusDataFrame {
    /// The rows of the table as values.
    spec fn table(&self) -> Seq<ClusterModel>;

    /// The terms of the modularity of each cluster with respect to `graph`.
    fn modularity_terms(&self, graph: &Graph) -> (terms: Result<Vec<ModularityTerms>, Error>)
        ensures
            match terms {
                Ok(found) => modularity_outcome(self.table(), graph@.m() as u64) == Ok::<
                    Seq<ModularityTerms>,
                    Error,
                >(found@),
                Err(e) => modularity_outcome(self.table(), graph@.m() as u64) == Err::<
                    Seq<ModularityTerms>,
                    Error,
                >(e),
            },
    ;

    /// The terms of the constant-Potts-model score of each cluster.
    fn cpm_terms(&self) -> (terms: Result<Vec<CpmTerms>, Error>)
        ensures
            match terms {
                Ok(found) => cpm_outcome(self.table()) == Ok::<Seq<CpmTerms>, Error>(found@),
                Err(e) => cpm_outcome(self.table()) == Err::<Seq<CpmTerms>, Error>(e),
            },
    ;

    /// The number of nodes that belong to at least one cluster. A node that
    /// belongs to several clusters is counted once.
    fn covered_num_nodes(&self) -> (count: u64)
        ensures
            count == cover(self.table()).len(),
    ;
}

impl ClusDataFrame for ClusterTable {
    open spec fn table(&self) -> Seq<ClusterModel> {
        self@
    }

    fn modularity_terms(&self, graph: &Graph) -> (terms: Result<Vec<ModularityTerms>, Error>) {
        let total = graph.m();
        if total == 0 {
            return Err(Error::DegenerateGraph);
        }
        let mut found: Vec<ModularityTerms> = Vec::new();
        let mut i: usize = 0;
        while i < self.rows.len()
            invariant
                i <= self.rows@.len(),
                total == graph@.m(),
                total != 0,
                found@.len() == i,
                forall|k: int| 0 <= k < i ==> (#[trigger] self@[k]).stats is Some,
                forall|k: int|
                    0 <= k < i ==> (#[trigger] found@[k]) == (ModularityTerms {
                        m: self@[k].stats->0.m,
                        vol: (2 * self@[k].stats->0.m + self@[k].stats->0.c) as u128,
                        total_edges: total,
                    }),
            decreases self.rows@.len() - i,
        {
            match self.rows[i].stats {
                Some(st) => {
                    found.push(ModularityTerms { m: st.m, vol: st.vol(), total_edges: total });
                },
                None => {
                    proof {
                        assert(self@[i as int].stats is None);
                    }
                    return Err(Error::MissingStatistics);
                },
            }
            i += 1;
        }
        proof {
            assert(!some_unpopulated(self@));
            assert(found@ =~= modularity_outcome(self@, total)->Ok_0);
        }
        Ok(found)
    }

    fn cpm_terms(&self) -> (terms: Result<Vec<CpmTerms>, Error>) {
        let mut found: Vec<CpmTerms> = Vec::new();
        let mut i: usize = 0;
        while i < self.rows.len()
            invariant
                i <= self.rows@.len(),
                found@.len() == i,
                forall|k: int| 0 <= k < i ==> (#[trigger] self@[k]).stats is Some,
                forall|k: int|
                    0 <= k < i ==> (#[trigger] found@[k]) == (CpmTerms {
                        m: self@[k].stats->0.m,
                        n: self@[k].stats->0.n,
                    }),
            decreases self.rows@.len() - i,
        {
            match self.rows[i].stats {
                Some(st) => {
                    found.push(CpmTerms { m: st.m, n: st.n });
                },
                None => {
                    proof {
                        assert(self@[i as int].stats is None);
                    }
                    return Err(Error::MissingStatistics);
                },
            }
            i += 1;
        }
        proof {
            assert(!some_unpopulated(self@));
            assert(found@ =~= cpm_outcome(self@)->Ok_0);
        }
        Ok(found)
    }

    fn covered_num_nodes(&self) -> (count: u64) {
        let all = self.cover();
        all.len()
    }
}

/// The ids that are in at least one of the sets.
pub open spec fn members_of(rows: Seq<Set<u32>>) -> Set<u32> {
    Set::new(|x: u32| exists|i: int| 0 <= i < rows.len() && #[trigger] rows[i].contains(x))
}

/// The sizes of the sets added up.
pub open spec fn sizes_total(rows: Seq<Set<u32>>) -> nat
    decreases rows.len(),
{
    if rows.len() == 0 {
        0
    } else {
        sizes_total(rows.drop_last()) + rows.last().len()
    }
}

/// The clusters cover no more nodes than their sizes add up to, and exactly
/// as many where no node belongs to two of them.
pub proof fn lemma_cover_within_sizes(rows: Seq<Set<u32>>)
    ensures
        members_of(rows).finite(),
        members_of(rows).len() <= sizes_total(rows),
        (forall|i: int, j: int|
            0 <= i < j < rows.len() ==> (#[trigger] rows[i]).disjoint(#[trigger] rows[j]))
            ==> members_of(rows).len() == sizes_total(rows),
    decreases rows.len(),
{
    let all = members_of(rows);
    lemma_id_set_finite(all);
    if rows.len() == 0 {
        assert(all =~= Set::<u32>::empty());
    } else {
        let before = rows.drop_last();
        let last = rows.last();
        lemma_cover_within_sizes(before);
        lemma_id_set_finite(last);
        lemma_id_set_finite(members_of(before));
        assert(all =~= members_of(before).union(last)) by {
            assert forall|x: u32| all.contains(x) <==> members_of(before).union(last).contains(
                x,
            ) by {
                if all.contains(x) {
                    let i = choose|i: int| 0 <= i < rows.len() && #[trigger] rows[i].contains(x);
                    if i < before.len() {
                        assert(before[i].contains(x));
                    }
                }
                if members_of(before).contains(x) {
                    let i = choose|i: int| 0 <= i < before.len() && #[trigger] before[i].contains(x);
                    assert(rows[i].contains(x));
                }
                if last.contains(x) {
                    assert(rows[rows.len() - 1].contains(x));
                }
            }
        }
        vstd::set_lib::lemma_len_union(members_of(before), last);
        if forall|i: int, j: int|
            0 <= i < j < rows.len() ==> (#[trigger] rows[i]).disjoint(#[trigger] rows[j]) {
            assert forall|i: int, j: int| 0 <= i < j < before.len() implies (#[trigger] before[i]).disjoint(
                #[trigger] before[j],
            ) by {
                assert(rows[i].disjoint(rows[j]));
            }
            assert(members_of(before).disjoint(last)) by {
                assert forall|x: u32| !(members_of(before).contains(x) && last.contains(x)) by {
                    if members_of(before).contains(x) && last.contains(x) {
                        let i = choose|i: int|
                            0 <= i < before.len() && #[trigger] before[i].contains(x);
                        assert(rows[i].disjoint(rows[rows.len() - 1]));
                    }
                }
            }
            vstd::set_lib::lemma_set_disjoint_lens(members_of(before), last);
        }
    }
}

} // verus!
