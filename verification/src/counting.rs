//! Counting edges from both ends: the intra-cluster degrees of a cluster
//! add up to twice the number of edges inside it, and what follows from
//! that for volumes and for clusterings that cover the graph.

use crate::bitmap::lemma_id_set_finite;
use crate::edges::lemma_induced_ids_in_range;
use crate::model::adjacency_ok;
use crate::model::edge_id;
use crate::model::lemma_degree_bound;
use crate::model::lemma_edge_count_fits;
use crate::model::lemma_edge_id_range;
use crate::model::lemma_offset_monotonic;
use crate::model::sum_members;
use crate::model::GraphModel;
use crate::treemap::lemma_edge_set_finite;
use vstd::prelude::*;

verus! {

/// The ids below `k`.
pub open spec fn below(k: int) -> Set<u32> {
    Set::new(|x: u32| x < k)
}

/// 1 for the members of `t`, 0 for the others.
pub open spec fn indicator(t: Set<u32>) -> spec_fn(int) -> int {
    |v: int|
        if t.contains(v as u32) {
            1int
        } else {
            0int
        }
}

impl GraphModel {
    /// The neighbours of `u` that are members of `s` and below `k`.
    pub open spec fn lower_part(self, s: Set<u32>, u: int, k: int) -> Set<u32> {
        self.neighbors(u).intersect(s).intersect(below(k))
    }

    /// For each node the number of its neighbours in `s` below `k`.
    pub open spec fn lower_count(self, s: Set<u32>, k: int) -> spec_fn(int) -> int {
        |u: int| self.lower_part(s, u, k).len() as int
    }

    /// The ids of the induced edges whose greater end is below `k`.
    pub open spec fn edges_under(self, s: Set<u32>, k: int) -> Set<u64> {
        Set::new(
            |e: u64|
                exists|u: int, j: int| #[trigger]
                    self.is_induced_edge(s, u, j) && e == edge_id(self.adj, u, j) && self.adj[u][j]
                        < k,
        )
    }

    /// The id of the edge between `k` and its smaller neighbour `u`.
    pub open spec fn edge_up_to(self, k: int) -> spec_fn(u32) -> u64 {
        |u: u32| edge_id(self.adj, u as int, self.adj[u as int].index_of(k as u32)) as u64
    }
}

/// A sum of sums is the sum of the terms added.
pub proof fn lemma_sum_add(
    s: Set<u32>,
    k: nat,
    f: spec_fn(int) -> int,
    g: spec_fn(int) -> int,
    h: spec_fn(int) -> int,
)
    requires
        forall|u: int| 0 <= u < k ==> #[trigger] h(u) == f(u) + g(u),
    ensures
        sum_members(s, k, h) == sum_members(s, k, f) + sum_members(s, k, g),
    decreases k,
{
    if k > 0 {
        lemma_sum_add(s, (k - 1) as nat, f, g, h);
        assert(h(k - 1) == f(k - 1) + g(k - 1));
    }
}

/// Sums of terms that agree on the members agree.
pub proof fn lemma_sum_same(s: Set<u32>, k: nat, f: spec_fn(int) -> int, g: spec_fn(int) -> int)
    requires
        k <= u32::MAX + 1,
        forall|u: int| 0 <= u < k && s.contains(u as u32) ==> #[trigger] f(u) == g(u),
    ensures
        sum_members(s, k, f) == sum_members(s, k, g),
    decreases k,
{
    if k > 0 {
        lemma_sum_same(s, (k - 1) as nat, f, g);
        if s.contains((k - 1) as u32) {
            assert(f(k - 1) == g(k - 1));
        }
    }
}

/// Sums over sets with the same members below `k` agree.
pub proof fn lemma_sum_same_set(s: Set<u32>, t: Set<u32>, k: nat, f: spec_fn(int) -> int)
    requires
        k <= u32::MAX + 1,
        forall|x: u32| x < k ==> (s.contains(x) <==> t.contains(x)),
    ensures
        sum_members(s, k, f) == sum_members(t, k, f),
    decreases k,
{
    if k > 0 {
        lemma_sum_same_set(s, t, (k - 1) as nat, f);
    }
}

/// The sum over two sets without a common member is the sum of the sums.
pub proof fn lemma_sum_disjoint(a: Set<u32>, b: Set<u32>, k: nat, f: spec_fn(int) -> int)
    requires
        a.disjoint(b),
    ensures
        sum_members(a.union(b), k, f) == sum_members(a, k, f) + sum_members(b, k, f),
    decreases k,
{
    if k > 0 {
        lemma_sum_disjoint(a, b, (k - 1) as nat, f);
        let x = (k - 1) as u32;
        assert(!(a.contains(x) && b.contains(x)));
    }
}

/// Counting the members of `s` below `k` that are in `t`, one by one, gives
/// the size of what the three sets have in common.
pub proof fn lemma_sum_indicator(s: Set<u32>, t: Set<u32>, k: nat)
    requires
        k <= u32::MAX + 1,
    ensures
        sum_members(s, k, indicator(t)) == t.intersect(s).intersect(below(k as int)).len(),
    decreases k,
{
    let now = t.intersect(s).intersect(below(k as int));
    lemma_id_set_finite(now);
    if k == 0 {
        assert(now =~= Set::<u32>::empty());
    } else {
        let before = t.intersect(s).intersect(below(k - 1));
        lemma_id_set_finite(before);
        lemma_sum_indicator(s, t, (k - 1) as nat);
        let x = (k - 1) as u32;
        if s.contains(x) && t.contains(x) {
            assert(now =~= before.insert(x));
            assert(indicator(t)(k - 1) == 1);
        } else {
            assert(now =~= before);
            if s.contains(x) {
                assert(indicator(t)(k - 1) == 0);
            }
        }
    }
}

/// Two positions that hold edges seen from their smaller ends have
/// different edge ids unless they are the same position.
pub proof fn lemma_edge_id_injective(adj: Seq<Seq<u32>>, u: int, j: int, v: int, i: int)
    requires
        adjacency_ok(adj),
        0 <= u < adj.len(),
        0 <= j < adj[u].len(),
        adj[u][j] > u,
        0 <= v < adj.len(),
        0 <= i < adj[v].len(),
        adj[v][i] > v,
        edge_id(adj, u, j) == edge_id(adj, v, i),
    ensures
        u == v,
        j == i,
{
    lemma_edge_id_range(adj, u, j);
    lemma_edge_id_range(adj, v, i);
    if u < v {
        lemma_offset_monotonic(adj, (u + 1) as nat, v as nat);
    }
    if v < u {
        lemma_offset_monotonic(adj, (v + 1) as nat, u as nat);
    }
}

/// Membership in a neighbour list is mutual.
pub proof fn lemma_mutual(adj: Seq<Seq<u32>>, u: int, v: int)
    requires
        adjacency_ok(adj),
        0 <= u < adj.len(),
        adj[u].to_set().contains(v as u32),
        0 <= v <= u32::MAX,
    ensures
        0 <= v < adj.len(),
        v != u,
        adj[v].to_set().contains(u as u32),
{
    let j = choose|j: int| 0 <= j < adj[u].len() && adj[u][j] == v as u32;
    assert(adj[u][j] < adj.len());
    assert(adj[u][j] != u);
    assert(adj[adj[u][j] as int].contains(u as u32));
}

/// The edges whose greater end is `k` are as many as the neighbours of `k`
/// in `s` below `k`, when `k` is a member; none are when it is not.
proof fn lemma_edges_step(g: GraphModel, s: Set<u32>, k: int)
    requires
        g.valid(),
        0 <= k < g.n(),
    ensures
        g.edges_under(s, k).finite(),
        g.edges_under(s, k + 1).finite(),
        g.edges_under(s, k + 1).len() == g.edges_under(s, k).len() + if s.contains(k as u32) {
            g.lower_part(s, k, k).len()
        } else {
            0
        },
{
    let before = g.edges_under(s, k);
    let after = g.edges_under(s, k + 1);
    lemma_edge_set_finite(before);
    lemma_edge_set_finite(after);
    if !s.contains(k as u32) {
        assert forall|e: u64| after.contains(e) <==> before.contains(e) by {
            if after.contains(e) {
                let (u, j) = choose|u: int, j: int| #[trigger]
                    g.is_induced_edge(s, u, j) && e == edge_id(g.adj, u, j) && g.adj[u][j] < k + 1;
                assert(g.is_induced_edge(s, u, j) && e == edge_id(g.adj, u, j) && g.adj[u][j] < k);
            }
            if before.contains(e) {
                let (u, j) = choose|u: int, j: int| #[trigger]
                    g.is_induced_edge(s, u, j) && e == edge_id(g.adj, u, j) && g.adj[u][j] < k;
                assert(g.is_induced_edge(s, u, j) && e == edge_id(g.adj, u, j) && g.adj[u][j] < k
                    + 1);
            }
        }
        assert(after =~= before);
    } else {
        let low = g.lower_part(s, k, k);
        let f = g.edge_up_to(k);
        let fresh = low.map(f);
        lemma_id_set_finite(low);
        assert forall|a: u32, b: u32| low.contains(a) && low.contains(b) && f(a) == f(
            b,
        ) implies a == b by {
            lemma_low_edge(g, s, k, a);
            lemma_low_edge(g, s, k, b);
            lemma_edge_id_injective(
                g.adj,
                a as int,
                g.adj[a as int].index_of(k as u32),
                b as int,
                g.adj[b as int].index_of(k as u32),
            );
        }
        assert(vstd::relations::injective_on(f, low));
        vstd::set_lib::lemma_map_size(low, fresh, f);
        assert forall|e: u64| after.contains(e) <==> before.union(fresh).contains(e) by {
            if after.contains(e) {
                let (u, j) = choose|u: int, j: int| #[trigger]
                    g.is_induced_edge(s, u, j) && e == edge_id(g.adj, u, j) && g.adj[u][j] < k + 1;
                if g.adj[u][j] < k {
                    assert(g.is_induced_edge(s, u, j) && e == edge_id(g.adj, u, j) && g.adj[u][j]
                        < k);
                } else {
                    assert(g.adj[u][j] == k);
                    assert(g.adj[g.adj[u][j] as int].contains(u as u32));
                    assert(low.contains(u as u32));
                    lemma_low_edge(g, s, k, u as u32);
                    let i = g.adj[u].index_of(k as u32);
                    crate::model::lemma_ascending_set_len(g.adj[u]);
                    assert(i == j);
                    assert(f(u as u32) == e);
                    assert(fresh.contains(e));
                }
            }
            if before.contains(e) {
                let (u, j) = choose|u: int, j: int| #[trigger]
                    g.is_induced_edge(s, u, j) && e == edge_id(g.adj, u, j) && g.adj[u][j] < k;
                assert(g.is_induced_edge(s, u, j) && e == edge_id(g.adj, u, j) && g.adj[u][j] < k
                    + 1);
            }
            if fresh.contains(e) {
                let a = choose|a: u32| low.contains(a) && e == f(a);
                lemma_low_edge(g, s, k, a);
                let i = g.adj[a as int].index_of(k as u32);
                assert(g.is_induced_edge(s, a as int, i) && e == edge_id(g.adj, a as int, i)
                    && g.adj[a as int][i] < k + 1);
            }
        }
        assert(after =~= before.union(fresh));
        assert(before.disjoint(fresh)) by {
            assert forall|e: u64| !(before.contains(e) && fresh.contains(e)) by {
                if before.contains(e) && fresh.contains(e) {
                    let (u, j) = choose|u: int, j: int| #[trigger]
                        g.is_induced_edge(s, u, j) && e == edge_id(g.adj, u, j) && g.adj[u][j] < k;
                    let a = choose|a: u32| low.contains(a) && e == f(a);
                    lemma_low_edge(g, s, k, a);
                    lemma_edge_id_injective(
                        g.adj,
                        u,
                        j,
                        a as int,
                        g.adj[a as int].index_of(k as u32),
                    );
                }
            }
        }
        vstd::set_lib::lemma_set_disjoint_lens(before, fresh);
    }
}

/// A neighbour `a` of the member `k` that is a member and below `k` holds
/// the edge between them at the position of `k` in its list.
proof fn lemma_low_edge(g: GraphModel, s: Set<u32>, k: int, a: u32)
    requires
        g.valid(),
        0 <= k < g.n(),
        s.contains(k as u32),
        g.lower_part(s, k, k).contains(a),
    ensures
        a < k,
        0 <= g.adj[a as int].index_of(k as u32) < g.adj[a as int].len(),
        g.adj[a as int][g.adj[a as int].index_of(k as u32)] == k,
        g.is_induced_edge(s, a as int, g.adj[a as int].index_of(k as u32)),
        0 <= edge_id(g.adj, a as int, g.adj[a as int].index_of(k as u32)) <= u64::MAX,
        g.edge_up_to(k)(a) == edge_id(g.adj, a as int, g.adj[a as int].index_of(k as u32)),
{
    lemma_mutual(g.adj, k, a as int);
    assert(g.adj[a as int].contains(k as u32));
    let i = g.adj[a as int].index_of(k as u32);
    lemma_edge_id_range(g.adj, a as int, i);
    lemma_offset_monotonic(g.adj, (a + 1) as nat, g.n());
    lemma_edge_count_fits(g.adj, g.n());
}

/// The numbers of neighbours in `s` below `k`, added up over the members
/// below `k`, are twice the number of induced edges whose greater end is
/// below `k`.
proof fn lemma_lower_counts(g: GraphModel, s: Set<u32>, k: nat)
    requires
        g.valid(),
        k <= g.n(),
    ensures
        g.edges_under(s, k as int).finite(),
        sum_members(s, k, g.lower_count(s, k as int)) == 2 * g.edges_under(s, k as int).len(),
    decreases k,
{
    lemma_edge_set_finite(g.edges_under(s, k as int));
    if k == 0 {
        assert forall|e: u64| !g.edges_under(s, 0).contains(e) by {
            if g.edges_under(s, 0).contains(e) {
                let (u, j) = choose|u: int, j: int| #[trigger]
                    g.is_induced_edge(s, u, j) && e == edge_id(g.adj, u, j) && g.adj[u][j] < 0;
            }
        }
        assert(g.edges_under(s, 0) =~= Set::<u64>::empty());
    } else {
        let p = (k - 1) as nat;
        lemma_lower_counts(g, s, p);
        lemma_edges_step(g, s, p as int);
        let old_count = g.lower_count(s, p as int);
        let new_count = g.lower_count(s, k as int);
        let hit = if s.contains(p as u32) {
            indicator(g.neighbors(p as int))
        } else {
            indicator(Set::<u32>::empty())
        };
        assert forall|u: int| 0 <= u < p implies #[trigger] new_count(u) == old_count(u) + hit(
            u,
        ) by {
            let was = g.lower_part(s, u, p as int);
            let is = g.lower_part(s, u, k as int);
            lemma_id_set_finite(was);
            lemma_id_set_finite(is);
            if s.contains(p as u32) && g.neighbors(u).contains(p as u32) {
                lemma_mutual(g.adj, u, p as int);
                assert(is =~= was.insert(p as u32));
                assert(hit(u) == 1);
            } else {
                assert(is =~= was);
                if s.contains(p as u32) {
                    if g.neighbors(p as int).contains(u as u32) {
                        lemma_mutual(g.adj, p as int, u);
                    }
                    assert(hit(u) == 0);
                } else {
                    assert(hit(u) == 0);
                }
            }
        }
        lemma_sum_add(s, p, old_count, hit, new_count);
        if s.contains(p as u32) {
            lemma_sum_indicator(s, g.neighbors(p as int), p);
            assert(g.neighbors(p as int).intersect(s).intersect(below(p as int)) == g.lower_part(
                s,
                p as int,
                p as int,
            ));
            let at_p = g.lower_part(s, p as int, k as int);
            assert(at_p =~= g.lower_part(s, p as int, p as int)) by {
                assert forall|x: u32| at_p.contains(x) implies x != p by {
                    lemma_mutual(g.adj, p as int, x as int);
                }
            }
            assert(new_count(p as int) == g.lower_part(s, p as int, p as int).len());
        } else {
            lemma_sum_indicator(s, Set::<u32>::empty(), p);
            assert(Set::<u32>::empty().intersect(s).intersect(below(p as int))
                =~= Set::<u32>::empty());
        }
    }
}

/// The intra-cluster degrees of a cluster add up to twice the number of
/// edges inside it, so the number of edges inside it is the number of ids
/// that the projection of the cluster onto the edges holds.
pub proof fn lemma_internal_edges_are_induced(g: GraphModel, s: Set<u32>)
    requires
        g.valid(),
    ensures
        g.induced_edge_ids(s).finite(),
        g.intra_total(s) == 2 * g.induced_edge_ids(s).len(),
        g.internal_edges(s) == g.induced_edge_ids(s).len(),
{
    let n = g.n();
    lemma_lower_counts(g, s, n);
    lemma_induced_ids_in_range(g, s);
    assert forall|e: u64| g.edges_under(s, n as int).contains(e) <==> g.induced_edge_ids(
        s,
    ).contains(e) by {
        if g.edges_under(s, n as int).contains(e) {
            let (u, j) = choose|u: int, j: int| #[trigger]
                g.is_induced_edge(s, u, j) && e == edge_id(g.adj, u, j) && g.adj[u][j] < n;
            assert(g.is_induced_edge(s, u, j) && e == edge_id(g.adj, u, j));
        }
        if g.induced_edge_ids(s).contains(e) {
            let (u, j) = choose|u: int, j: int| #[trigger]
                g.is_induced_edge(s, u, j) && e == edge_id(g.adj, u, j);
            assert(g.adj[u][j] < n);
            assert(g.is_induced_edge(s, u, j) && e == edge_id(g.adj, u, j) && g.adj[u][j] < n);
        }
    }
    assert(g.edges_under(s, n as int) =~= g.induced_edge_ids(s));
    let intra = |u: int| g.intra_degree(u, s) as int;
    assert forall|u: int| 0 <= u < n && s.contains(u as u32) implies #[trigger] g.lower_count(
        s,
        n as int,
    )(u) == intra(u) by {
        assert forall|x: u32| g.neighbors(u).contains(x) implies x < n by {
            lemma_mutual(g.adj, u, x as int);
        }
        assert(g.lower_part(s, u, n as int) =~= g.neighbors(u).intersect(s));
    }
    lemma_sum_same(s, n, g.lower_count(s, n as int), intra);
}

/// The volume of a cluster, the sum of the degrees of its members, is twice
/// its internal edges plus its cut edges.
pub proof fn lemma_volume(g: GraphModel, s: Set<u32>)
    requires
        g.valid(),
    ensures
        g.volume(s) == 2 * g.internal_edges(s) + g.cut_edges(s),
        g.cut_edges(s) >= 0,
{
    lemma_internal_edges_are_induced(g, s);
    let intra = |u: int| g.intra_degree(u, s) as int;
    let outer = |u: int| g.adj[u].len() - g.intra_degree(u, s);
    let degree = |u: int| g.adj[u].len() as int;
    assert forall|u: int| 0 <= u < g.n() implies #[trigger] degree(u) == intra(u) + outer(u) by {}
    lemma_sum_add(s, g.n(), intra, outer, degree);
    lemma_cut_nonnegative(g, s, g.n());
}

/// No member has more neighbours inside the cluster than it has neighbours.
proof fn lemma_cut_nonnegative(g: GraphModel, s: Set<u32>, k: nat)
    requires
        g.valid(),
        k <= g.n(),
    ensures
        sum_members(s, k, |u: int| g.adj[u].len() - g.intra_degree(u, s)) >= 0,
    decreases k,
{
    if k > 0 {
        lemma_cut_nonnegative(g, s, (k - 1) as nat);
        lemma_degree_bound(g.adj, k - 1);
        vstd::set_lib::lemma_len_intersect(g.neighbors(k - 1), s);
    }
}

} // verus!
