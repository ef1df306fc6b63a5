//! What holds of the statistics and of the edge projection whatever the
//! graph and the clusters are.

use crate::counting::lemma_internal_edges_are_induced;
use crate::counting::lemma_mutual;
use crate::counting::lemma_sum_disjoint;
use crate::counting::lemma_sum_same_set;
use crate::counting::lemma_volume;
use crate::edges::lemma_induced_ids_in_range;
use crate::model::edge_id;
use crate::model::count_below;
use crate::model::lemma_count_below_bound;
use crate::model::lemma_degree_bound;
use crate::model::lemma_edge_count_fits;
use crate::model::lemma_edge_id_range;
use crate::model::offset_at;
use crate::model::sum_members;
use crate::model::GraphModel;
use crate::stats::ClusterStats;
use vstd::prelude::*;

verus! {

/// The set of all nodes of a graph of `n` nodes.
pub open spec fn all_nodes(n: nat) -> Set<u32> {
    Set::new(|x: u32| x < n)
}

/// An edge id below the offset of `k` lies in the stretch of a node below
/// `k`.
proof fn lemma_owner(g: GraphModel, e: nat, k: nat)
    requires
        e < offset_at(g.adj, k),
    ensures
        exists|u: int| 0 <= u < k && offset_at(g.adj, u as nat) <= e < #[trigger] offset_at(
            g.adj,
            (u + 1) as nat,
        ),
    decreases k,
{
    if k > 0 {
        if e < offset_at(g.adj, (k - 1) as nat) {
            lemma_owner(g, e, (k - 1) as nat);
            let u = choose|u: int|
                0 <= u < k - 1 && offset_at(g.adj, u as nat) <= e < #[trigger] offset_at(
                    g.adj,
                    (u + 1) as nat,
                );
            assert(0 <= u < k && offset_at(g.adj, u as nat) <= e < offset_at(
                g.adj,
                (u + 1) as nat,
            ));
        } else {
            let u = k - 1;
            assert(0 <= u < k && offset_at(g.adj, u as nat) <= e < offset_at(
                g.adj,
                (u + 1) as nat,
            ));
        }
    }
}

/// The projection of a node set that holds every node of the graph is the
/// whole range of edge ids: it holds exactly the ids below the number of
/// edges, and so has that many members.
pub proof fn lemma_full_projection(g: GraphModel, s: Set<u32>)
    requires
        g.valid(),
        forall|x: u32| x < g.n() ==> s.contains(x),
    ensures
        g.induced_edge_ids(s) == Set::new(|e: u64| e < g.m()),
        g.induced_edge_ids(s).len() == g.m(),
{
    let all = Set::new(|e: u64| e < g.m());
    lemma_induced_ids_in_range(g, s);
    lemma_edge_count_fits(g.adj, g.n());
    assert forall|e: u64| all.contains(e) implies g.induced_edge_ids(s).contains(e) by {
        lemma_owner(g, e as nat, g.n());
        let u = choose|u: int|
            0 <= u < g.n() && offset_at(g.adj, u as nat) <= e < #[trigger] offset_at(
                g.adj,
                (u + 1) as nat,
            );
        let below = count_below(g.adj[u], u as u32);
        lemma_count_below_bound(g.adj[u], u as u32);
        let j = e - offset_at(g.adj, u as nat) + below;
        assert(0 <= j < g.adj[u].len());
        lemma_edge_id_range(g.adj, u, j);
        assert(g.adj[u][j] < g.n());
        assert(g.is_induced_edge(s, u, j) && e == edge_id(g.adj, u, j));
    }
    assert(g.induced_edge_ids(s) =~= all);
    assert(all =~= Set::<u64>::range(0, g.m() as u64));
    vstd::set_lib::range_set_properties::<u64>(0, g.m() as u64);
}

/// A sum of zeros is zero.
proof fn lemma_sum_zero(s: Set<u32>, k: nat, f: spec_fn(int) -> int)
    requires
        forall|u: int| 0 <= u < k ==> #[trigger] f(u) == 0,
    ensures
        sum_members(s, k, f) == 0,
    decreases k,
{
    if k > 0 {
        lemma_sum_zero(s, (k - 1) as nat, f);
        assert(f(k - 1) == 0);
    }
}

/// The degrees of all nodes add up to twice the number of edges.
pub proof fn lemma_handshake(g: GraphModel)
    requires
        g.valid(),
    ensures
        g.volume(all_nodes(g.n())) == 2 * g.m(),
        g.internal_edges(all_nodes(g.n())) == g.m(),
        g.cut_edges(all_nodes(g.n())) == 0,
{
    let s = all_nodes(g.n());
    lemma_volume(g, s);
    lemma_internal_edges_are_induced(g, s);
    lemma_full_projection(g, s);
    let outer = |u: int| g.adj[u].len() - g.intra_degree(u, s);
    assert forall|u: int| 0 <= u < g.n() implies #[trigger] outer(u) == 0 by {
        assert forall|x: u32| g.neighbors(u).contains(x) implies s.contains(x) by {
            lemma_mutual(g.adj, u, x as int);
        }
        assert(g.neighbors(u).intersect(s) =~= g.neighbors(u));
        lemma_degree_bound(g.adj, u);
    }
    lemma_sum_zero(s, g.n(), outer);
}

/// The members of the first `k` clusters.
pub open spec fn members_upto(clusters: Seq<Set<u32>>, k: nat) -> Set<u32> {
    Set::new(|x: u32| exists|i: int| 0 <= i < k && #[trigger] clusters[i].contains(x))
}

/// The clusters are disjoint and hold between them the nodes of a graph of
/// `n` nodes and nothing else.
pub open spec fn is_partition(n: nat, clusters: Seq<Set<u32>>) -> bool {
    &&& forall|i: int, j: int|
        0 <= i < j < clusters.len() ==> (#[trigger] clusters[i]).disjoint(#[trigger] clusters[j])
    &&& members_upto(clusters, clusters.len()) =~= all_nodes(n)
}

/// The internal edges of the first `k` clusters, added up.
pub open spec fn total_internal(g: GraphModel, clusters: Seq<Set<u32>>, k: nat) -> int
    decreases k,
{
    if k == 0 {
        0
    } else {
        total_internal(g, clusters, (k - 1) as nat) + g.internal_edges(clusters[k - 1])
    }
}

/// The cut edges of the first `k` clusters, added up.
pub open spec fn total_cut(g: GraphModel, clusters: Seq<Set<u32>>, k: nat) -> int
    decreases k,
{
    if k == 0 {
        0
    } else {
        total_cut(g, clusters, (k - 1) as nat) + g.cut_edges(clusters[k - 1])
    }
}

/// The volumes of disjoint clusters add up to the volume of their union.
proof fn lemma_volumes_add(g: GraphModel, clusters: Seq<Set<u32>>, k: nat)
    requires
        g.valid(),
        k <= clusters.len(),
        forall|i: int, j: int|
            0 <= i < j < clusters.len() ==> (#[trigger] clusters[i]).disjoint(
                #[trigger] clusters[j],
            ),
    ensures
        2 * total_internal(g, clusters, k) + total_cut(g, clusters, k) == g.volume(
            members_upto(clusters, k),
        ),
    decreases k,
{
    let degree = |u: int| g.adj[u].len() as int;
    if k == 0 {
        assert(members_upto(clusters, 0) =~= Set::<u32>::empty());
        lemma_sum_same_set(members_upto(clusters, 0), Set::<u32>::empty(), g.n(), degree);
        lemma_empty_sum(g.n(), degree);
    } else {
        let p = (k - 1) as nat;
        lemma_volumes_add(g, clusters, p);
        lemma_volume(g, clusters[p as int]);
        let before = members_upto(clusters, p);
        let last = clusters[p as int];
        assert(before.disjoint(last)) by {
            assert forall|x: u32| !(before.contains(x) && last.contains(x)) by {
                if before.contains(x) && last.contains(x) {
                    let i = choose|i: int| 0 <= i < p && #[trigger] clusters[i].contains(x);
                    assert(clusters[i].disjoint(clusters[p as int]));
                }
            }
        }
        lemma_sum_disjoint(before, last, g.n(), degree);
        assert(members_upto(clusters, k) =~= before.union(last)) by {
            assert forall|x: u32| members_upto(clusters, k).contains(x) <==> before.union(
                last,
            ).contains(x) by {
                if members_upto(clusters, k).contains(x) {
                    let i = choose|i: int| 0 <= i < k && #[trigger] clusters[i].contains(x);
                    if i < p {
                        assert(before.contains(x));
                    }
                }
                if before.contains(x) {
                    let i = choose|i: int| 0 <= i < p && #[trigger] clusters[i].contains(x);
                    assert(0 <= i < k && clusters[i].contains(x));
                }
                if last.contains(x) {
                    assert(0 <= p < k && clusters[p as int].contains(x));
                }
            }
        }
    }
}

/// A sum over no members is zero.
proof fn lemma_empty_sum(k: nat, f: spec_fn(int) -> int)
    ensures
        sum_members(Set::<u32>::empty(), k, f) == 0,
    decreases k,
{
    if k > 0 {
        lemma_empty_sum((k - 1) as nat, f);
    }
}

/// For clusters that do not overlap and cover all nodes of the graph, the
/// internal edges of the clusters together with half of their cut edges are
/// the edges of the graph: each edge is inside one cluster, or is cut by
/// two.
pub proof fn lemma_clustering_reconciles(g: GraphModel, clusters: Seq<Set<u32>>)
    requires
        g.valid(),
        is_partition(g.n(), clusters),
    ensures
        total_internal(g, clusters, clusters.len()) + total_cut(g, clusters, clusters.len()) / 2
            == g.m(),
        total_cut(g, clusters, clusters.len()) % 2 == 0,
{
    let k = clusters.len();
    lemma_volumes_add(g, clusters, k);
    lemma_handshake(g);
    let degree = |u: int| g.adj[u].len() as int;
    lemma_sum_same_set(members_upto(clusters, k), all_nodes(g.n()), g.n(), degree);
}

/// The minimum intra-cluster degree is no greater than the intra-cluster
/// degree of any member, and it is 0 exactly when the cluster has no member
/// or has a member without a neighbour inside the cluster; so it is 0 for a
/// cluster of at most one node, and 0 when no member has a neighbour inside.
pub proof fn lemma_mcd(g: GraphModel, s: Set<u32>, stats: ClusterStats)
    requires
        g.valid(),
        g.covers(s),
        stats.describes(g, s),
    ensures
        forall|u: u32| s.contains(u) ==> stats.mcd <= #[trigger] g.intra_degree(u as int, s),
        stats.mcd == 0 <==> s.is_empty() || exists|u: u32|
            s.contains(u) && #[trigger] g.intra_degree(u as int, s) == 0,
        stats.n <= 1 ==> stats.mcd == 0,
        (forall|u: u32| s.contains(u) ==> #[trigger] g.intra_degree(u as int, s) == 0)
            ==> stats.mcd == 0,
{
    crate::bitmap::lemma_id_set_finite(s);
    vstd::set_lib::lemma_set_empty_equivalency_len(s);
    if !s.is_empty() && stats.n <= 1 {
        Set::lemma_is_singleton(s);
        let w = choose|u: u32| s.contains(u) && #[trigger] g.intra_degree(u as int, s) == stats.mcd;
        assert forall|x: u32| !g.neighbors(w as int).intersect(s).contains(x) by {
            if g.neighbors(w as int).intersect(s).contains(x) {
                lemma_mutual(g.adj, w as int, x as int);
            }
        }
        assert(g.neighbors(w as int).intersect(s) =~= Set::<u32>::empty());
    }
}

/// Where the members of a cluster agree on whether they have a neighbour
/// inside the cluster, the minimum intra-cluster degree is 0 exactly when the
/// cluster has at most one node or no member has a neighbour inside.
pub proof fn lemma_mcd_zero(g: GraphModel, s: Set<u32>, stats: ClusterStats)
    requires
        g.valid(),
        g.covers(s),
        stats.describes(g, s),
        stats.n <= 1 || (forall|u: u32| s.contains(u) ==> #[trigger] g.intra_degree(u as int, s) == 0)
            || (forall|u: u32| s.contains(u) ==> #[trigger] g.intra_degree(u as int, s) != 0),
    ensures
        stats.mcd == 0 <==> stats.n <= 1 || (forall|u: u32|
            s.contains(u) ==> #[trigger] g.intra_degree(u as int, s) == 0),
{
    lemma_mcd(g, s, stats);
}

} // verus!
