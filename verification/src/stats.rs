//! Per-cluster statistics: size, internal and cut edges, minimum
//! intra-cluster degree and volume.

use crate::bitmap::bitmap_members;
use crate::bitmap::bitmap_to_vec;
use crate::bitmap::lemma_id_set_finite;
use crate::bitmap::strictly_ascending;
use crate::error::Error;
use crate::graph::Graph;
use crate::model::lemma_ascending_len_bound;
use crate::model::lemma_ascending_set_len;
use crate::model::lemma_degree_bound;
use crate::model::lemma_gap;
use crate::model::lemma_sum_skip;
use crate::model::passed;
use crate::model::sum_members;
use crate::model::GraphModel;
use roaring::RoaringBitmap;
use vstd::prelude::*;

verus! {

/// The statistics of one cluster.
#[derive(Clone, Copy, Debug, PartialEq, Eq, Structural)]
pub struct ClusterStats {
    /// Number of members.
    pub n: u64,
    /// Number of edges with both ends in the cluster.
    pub m: u64,
    /// Number of edges with exactly one end in the cluster.
    pub c: u64,
    /// Least number of neighbours that a member has inside the cluster; 0 for
    /// a cluster without members.
    pub mcd: u64,
}

impl ClusterStats {
    /// The volume that goes with the counts: every edge inside the cluster
    /// adds to the degrees of two members, every edge that leaves it to the
    /// degree of one.
    pub open spec fn spec_vol(self) -> nat {
        (2 * self.m + self.c) as nat
    }

    /// The volume of the cluster, the sum of the degrees of its members.
    pub fn vol(&self) -> (vol: u128)
        ensures
            vol == self.spec_vol(),
            vol == 2 * self.m + self.c,
    {
        2 * (self.m as u128) + self.c as u128
    }

    /// These are the statistics of the cluster `s` in the graph `g`.
    pub open spec fn describes(self, g: GraphModel, s: Set<u32>) -> bool {
        &&& self.n == s.len()
        &&& self.m == g.internal_edges(s)
        &&& self.c == g.cut_edges(s)
        &&& g.is_min_intra_degree(s, self.mcd as int)
    }
}

/// Computes the statistics of the cluster `nodes` in `g`: for each member
/// the number of its neighbours inside the cluster is taken from the
/// intersection of its neighbour set with the cluster. A cluster with a
/// member that is no node of the graph is refused before anything is counted.
pub fn cluster_stats(g: &Graph, nodes: &RoaringBitmap) -> (computed: Result<ClusterStats, Error>)
    ensures
        match computed {
            Ok(stats) => {
                &&& g@.covers(bitmap_members(*nodes))
                &&& stats.describes(g@, bitmap_members(*nodes))
                &&& stats.m == g@.induced_edge_ids(bitmap_members(*nodes)).len()
                &&& stats.spec_vol() == g@.volume(bitmap_members(*nodes))
            },
            Err(e) => e == Error::InvalidNodeId && !g@.covers(bitmap_members(*nodes)),
        },
{
    let ghost s = bitmap_members(*nodes);
    let ghost intra = |u: int| g@.intra_degree(u, s) as int;
    let ghost outer = |u: int| g@.adj[u].len() - g@.intra_degree(u, s);
    let members = bitmap_to_vec(nodes);
    let n = g.n();
    let count = members.len();
    proof {
        lemma_id_set_finite(s);
        lemma_ascending_set_len(members@);
    }
    if count > 0 && members[count - 1] >= n {
        proof {
            assert(members@.to_set().contains(members@[count - 1]));
        }
        return Err(Error::InvalidNodeId);
    }
    proof {
        assert forall|u: u32| s.contains(u) implies u < n by {
            assert(members@.to_set().contains(u));
            let k = choose|k: int| 0 <= k < members@.len() && members@[k] == u;
            if k < count - 1 {
                assert(members@[k] < members@[count - 1]);
            }
        }
        assert forall|k: int| 0 <= k < members@.len() implies members@[k] < n by {
            assert(members@.to_set().contains(members@[k]));
        }
        lemma_ascending_len_bound(members@, n as int);
    }
    let mut m: u64 = 0;
    let mut c: u64 = 0;
    let mut mcd: u64 = u64::MAX;
    let mut i: usize = 0;
    while i < count
        invariant
            g@.valid(),
            n == g@.n(),
            s == bitmap_members(*nodes),
            s.finite(),
            intra == |u: int| g@.intra_degree(u, s) as int,
            outer == |u: int| g@.adj[u].len() - g@.intra_degree(u, s),
            strictly_ascending(members@),
            members@.to_set() == s,
            count == members@.len(),
            count <= n,
            forall|k: int| 0 <= k < count ==> members@[k] < n,
            i <= count,
            m == sum_members(s, passed(members@, i as int), intra),
            c == sum_members(s, passed(members@, i as int), outer),
            m + c <= i * u32::MAX,
            i == 0 ==> mcd == u64::MAX,
            i > 0 ==> mcd <= u32::MAX,
            i > 0 ==> exists|k: int|
                0 <= k < i && #[trigger] g@.intra_degree(members@[k] as int, s) == mcd,
            forall|k: int| 0 <= k < i ==> mcd <= #[trigger] g@.intra_degree(members@[k] as int, s),
        decreases count - i,
    {
        let u = members[i];
        let ic = g.neighbor_set(u).intersection_len(nodes);
        let degree = g.degree(u) as u64;
        proof {
            lemma_degree_bound(g@.adj, u as int);
            vstd::set_lib::lemma_len_intersect(g@.neighbors(u as int), s);
            assert(ic == g@.intra_degree(u as int, s));
            assert(ic <= degree);
            lemma_gap(members@, s, i as int);
            lemma_sum_skip(s, passed(members@, i as int), u as nat, intra);
            lemma_sum_skip(s, passed(members@, i as int), u as nat, outer);
            assert(s.contains(u)) by {
                assert(members@.to_set().contains(members@[i as int]));
            }
            assert(passed(members@, i + 1) == u + 1);
            assert(sum_members(s, (u + 1) as nat, intra) == sum_members(s, u as nat, intra)
                + intra(u as int));
            assert(sum_members(s, (u + 1) as nat, outer) == sum_members(s, u as nat, outer)
                + outer(u as int));
            assert(i * u32::MAX + u32::MAX == (i + 1) * u32::MAX) by (nonlinear_arith);
            assert((i + 1) * u32::MAX <= 0xffff_ffff * 0xffff_ffff) by (nonlinear_arith)
                requires
                    i + 1 <= 0xffff_ffff,
            ;
        }
        m = m + ic;
        c = c + (degree - ic);
        if ic < mcd {
            mcd = ic;
        }
        i += 1;
    }
    proof {
        lemma_gap(members@, s, count as int);
        lemma_sum_skip(s, passed(members@, count as int), n as nat, intra);
        lemma_sum_skip(s, passed(members@, count as int), n as nat, outer);
        assert(count * u32::MAX <= 0xffff_ffff * 0xffff_ffff) by (nonlinear_arith)
            requires
                count <= 0xffff_ffff,
        ;
        assert(m == g@.intra_total(s));
        assert(c == g@.cut_edges(s));
    }
    if mcd == u64::MAX {
        mcd = 0;
    }
    m = m / 2;
    proof {
        crate::counting::lemma_internal_edges_are_induced(g@, s);
        crate::counting::lemma_volume(g@, s);
        if count == 0 {
            assert(s =~= Set::<u32>::empty());
        } else {
            assert(s.contains(members@[0])) by {
                assert(members@.to_set().contains(members@[0]));
            }
            let k = choose|k: int|
                0 <= k < count && #[trigger] g@.intra_degree(members@[k] as int, s) == mcd;
            assert(s.contains(members@[k])) by {
                assert(members@.to_set().contains(members@[k]));
            }
            assert forall|u: u32| s.contains(u) implies mcd <= #[trigger] g@.intra_degree(
                u as int,
                s,
            ) by {
                assert(members@.to_set().contains(u));
                let j = choose|j: int| 0 <= j < members@.len() && members@[j] == u;
                assert(mcd <= g@.intra_degree(members@[j] as int, s));
            }
        }
    }
    Ok(ClusterStats { n: count as u64, m, c, mcd })
}

} // verus!
