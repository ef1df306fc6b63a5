//! The mathematics of a static undirected graph: adjacency as sequences of
//! ascending neighbour lists, and the numbering of its edges.

use crate::bitmap::strictly_ascending;
use vstd::prelude::*;

verus! {

/// What a graph is, apart from how it is stored: for each node the ascending
/// list of its neighbours, and for each node its external id.
pub struct GraphModel {
    pub adj: Seq<Seq<u32>>,
    pub names: Seq<u32>,
}

/// How many entries of `s` are smaller than `x`.
pub open spec fn count_below(s: Seq<u32>, x: u32) -> nat
    decreases s.len(),
{
    if s.len() == 0 {
        0
    } else {
        count_below(s.drop_last(), x) + if s.last() < x {
            1nat
        } else {
            0nat
        }
    }
}

/// Every neighbour list is strictly ascending.
pub open spec fn all_ascending(adj: Seq<Seq<u32>>) -> bool {
    forall|u: int| 0 <= u < adj.len() ==> strictly_ascending(#[trigger] adj[u])
}

/// Every listed neighbour is a node of the graph.
pub open spec fn all_in_range(adj: Seq<Seq<u32>>) -> bool {
    forall|u: int, j: int|
        0 <= u < adj.len() && 0 <= j < adj[u].len() ==> (#[trigger] adj[u][j]) < adj.len()
}

/// No node is listed as its own neighbour.
pub open spec fn no_loops(adj: Seq<Seq<u32>>) -> bool {
    forall|u: int, j: int|
        0 <= u < adj.len() && 0 <= j < adj[u].len() ==> (#[trigger] adj[u][j]) != u
}

/// Whenever `v` is listed under `u`, `u` is listed under `v`.
pub open spec fn symmetric(adj: Seq<Seq<u32>>) -> bool {
    forall|u: int, j: int|
        0 <= u < adj.len() && 0 <= j < adj[u].len() ==> adj[(#[trigger] adj[u][j]) as int].contains(
            u as u32,
        )
}

/// Neighbour lists describe a simple undirected graph whose node ids fit 32
/// bits.
pub open spec fn adjacency_ok(adj: Seq<Seq<u32>>) -> bool {
    &&& adj.len() <= u32::MAX
    &&& all_ascending(adj)
    &&& all_in_range(adj)
    &&& no_loops(adj)
    &&& symmetric(adj)
}

/// The number of neighbours of `u` that are greater than `u`.
pub open spec fn upper_degree(adj: Seq<Seq<u32>>, u: int) -> nat {
    (adj[u].len() - count_below(adj[u], u as u32)) as nat
}

/// The number of edges whose smaller end is below `k`.
pub open spec fn offset_at(adj: Seq<Seq<u32>>, k: nat) -> nat
    decreases k,
{
    if k == 0 {
        0
    } else {
        offset_at(adj, (k - 1) as nat) + upper_degree(adj, k - 1)
    }
}

/// The id of the edge from `u` to the neighbour at position `j` of its list,
/// for a neighbour greater than `u`: edges are numbered by their smaller end
/// first, and among those of one smaller end by their greater end.
pub open spec fn edge_id(adj: Seq<Seq<u32>>, u: int, j: int) -> int {
    offset_at(adj, u as nat) + j - count_below(adj[u], u as u32)
}

/// The sum of `f(u)` over the members `u` of `s` that are below `k`.
pub open spec fn sum_members(s: Set<u32>, k: nat, f: spec_fn(int) -> int) -> int
    decreases k,
{
    if k == 0 {
        0
    } else {
        sum_members(s, (k - 1) as nat, f) + if s.contains((k - 1) as u32) {
            f(k - 1)
        } else {
            0
        }
    }
}

impl GraphModel {
    /// The number of nodes.
    pub open spec fn n(self) -> nat {
        self.adj.len()
    }

    /// The number of undirected edges.
    pub open spec fn m(self) -> nat {
        offset_at(self.adj, self.adj.len())
    }

    /// The graph is simple and undirected, every node has one external id,
    /// and no two nodes share one.
    pub open spec fn valid(self) -> bool {
        &&& adjacency_ok(self.adj)
        &&& self.names.len() == self.adj.len()
        &&& self.names.no_duplicates()
    }

    /// The neighbours of `u` as a set.
    pub open spec fn neighbors(self, u: int) -> Set<u32> {
        self.adj[u].to_set()
    }

    /// The number of neighbours of `u` that are members of `s`.
    pub open spec fn intra_degree(self, u: int, s: Set<u32>) -> nat {
        self.neighbors(u).intersect(s).len()
    }

    /// The intra-cluster degrees of the members of `s`, added up.
    pub open spec fn intra_total(self, s: Set<u32>) -> int {
        sum_members(s, self.n(), |u: int| self.intra_degree(u, s) as int)
    }

    /// The number of edges with both ends in `s`: each is counted once from
    /// either end in the total of the intra-cluster degrees.
    pub open spec fn internal_edges(self, s: Set<u32>) -> int {
        self.intra_total(s) / 2
    }

    /// The number of edges with exactly one end in `s`.
    pub open spec fn cut_edges(self, s: Set<u32>) -> int {
        sum_members(s, self.n(), |u: int| self.adj[u].len() - self.intra_degree(u, s))
    }

    /// The degrees of the members of `s`, added up.
    pub open spec fn volume(self, s: Set<u32>) -> int {
        sum_members(s, self.n(), |u: int| self.adj[u].len() as int)
    }

    /// `d` is the least intra-cluster degree among the members of `s`, or 0
    /// when `s` has no member.
    pub open spec fn is_min_intra_degree(self, s: Set<u32>, d: int) -> bool {
        if s.is_empty() {
            d == 0
        } else {
            &&& exists|u: u32| s.contains(u) && #[trigger] self.intra_degree(u as int, s) == d
            &&& forall|u: u32| s.contains(u) ==> d <= #[trigger] self.intra_degree(u as int, s)
        }
    }

    /// Position `j` of the list of `u` holds an edge of the graph induced by
    /// `s`, seen from its smaller end: `u` and the neighbour there are both
    /// members, and the neighbour is the greater.
    pub open spec fn is_induced_edge(self, s: Set<u32>, u: int, j: int) -> bool {
        &&& 0 <= u < self.adj.len()
        &&& 0 <= j < self.adj[u].len()
        &&& s.contains(u as u32)
        &&& self.adj[u][j] > u
        &&& s.contains(self.adj[u][j])
    }

    /// `e` is the id of an induced edge whose smaller end is below `u`, or
    /// is `u` with the greater end before position `j` of its list.
    pub open spec fn listed_before(self, s: Set<u32>, u: int, j: int, e: u64) -> bool {
        exists|a: int, b: int| #[trigger]
            self.is_induced_edge(s, a, b) && e == edge_id(self.adj, a, b) && (a < u || (a == u && b
                < j))
    }

    /// The ids of the edges with both ends in `s`.
    pub open spec fn induced_edge_ids(self, s: Set<u32>) -> Set<u64> {
        Set::new(
            |e: u64|
                exists|u: int, j: int| #[trigger]
                    self.is_induced_edge(s, u, j) && e == edge_id(self.adj, u, j),
        )
    }

    /// Every member of `s` is a node of the graph.
    pub open spec fn covers(self, s: Set<u32>) -> bool {
        forall|u: u32| s.contains(u) ==> u < self.n()
    }

    /// The node whose external id is `external`, if there is one.
    pub open spec fn retrieve(self, external: u32) -> Option<u32> {
        if self.names.contains(external) {
            Some(self.names.index_of(external) as u32)
        } else {
            None
        }
    }
}

/// No more entries are below `x` than there are entries.
pub proof fn lemma_count_below_bound(s: Seq<u32>, x: u32)
    ensures
        count_below(s, x) <= s.len(),
    decreases s.len(),
{
    if s.len() > 0 {
        lemma_count_below_bound(s.drop_last(), x);
    }
}

/// In an ascending list the entries below `x` are exactly the first
/// `count_below(s, x)` ones.
pub proof fn lemma_count_below_split(s: Seq<u32>, x: u32)
    requires
        strictly_ascending(s),
    ensures
        count_below(s, x) <= s.len(),
        forall|i: int| 0 <= i < s.len() ==> (#[trigger] s[i] < x <==> i < count_below(s, x)),
    decreases s.len(),
{
    lemma_count_below_bound(s, x);
    if s.len() > 0 {
        let t = s.drop_last();
        assert(strictly_ascending(t));
        lemma_count_below_split(t, x);
        assert forall|i: int| 0 <= i < s.len() implies (#[trigger] s[i] < x <==> i < count_below(
            s,
            x,
        )) by {
            if i < t.len() {
                assert(t[i] == s[i]);
                assert(s[i] < s[s.len() - 1]);
            }
        }
    }
}

/// The entry at position `i` of an ascending list is at least `i`.
pub proof fn lemma_ascending_at_least_index(s: Seq<u32>, i: int)
    requires
        strictly_ascending(s),
        0 <= i < s.len(),
    ensures
        s[i] >= i,
    decreases i,
{
    if i > 0 {
        lemma_ascending_at_least_index(s, i - 1);
    }
}

/// An ascending list of ids below `n` has at most `n` entries.
pub proof fn lemma_ascending_len_bound(s: Seq<u32>, n: int)
    requires
        strictly_ascending(s),
        forall|i: int| 0 <= i < s.len() ==> s[i] < n,
        0 <= n,
    ensures
        s.len() <= n,
{
    if s.len() > 0 {
        lemma_ascending_at_least_index(s, s.len() - 1);
    }
}

/// An ascending list has as many entries as its set has members.
pub proof fn lemma_ascending_set_len(s: Seq<u32>)
    requires
        strictly_ascending(s),
    ensures
        s.no_duplicates(),
        s.to_set().finite(),
        s.to_set().len() == s.len(),
{
    assert(s.no_duplicates()) by {
        assert forall|i: int, j: int| 0 <= i < s.len() && 0 <= j < s.len() && i != j implies s[i]
            != s[j] by {
            if i < j {
                assert(s[i] < s[j]);
            } else {
                assert(s[j] < s[i]);
            }
        }
    }
    s.unique_seq_to_set();
    crate::bitmap::lemma_id_set_finite(s.to_set());
}

/// The edge numbering never decreases along the nodes.
pub proof fn lemma_offset_monotonic(adj: Seq<Seq<u32>>, a: nat, b: nat)
    requires
        a <= b,
    ensures
        offset_at(adj, a) <= offset_at(adj, b),
    decreases b,
{
    if a < b {
        lemma_offset_monotonic(adj, a, (b - 1) as nat);
    }
}

/// Each node has fewer neighbours than the graph has nodes, so the number of
/// edges below any node stays far from the limit of 64 bits.
pub proof fn lemma_offset_bound(adj: Seq<Seq<u32>>, k: nat)
    requires
        adjacency_ok(adj),
        k <= adj.len(),
    ensures
        offset_at(adj, k) <= k * u32::MAX,
    decreases k,
{
    if k > 0 {
        lemma_offset_bound(adj, (k - 1) as nat);
        let list = adj[k - 1];
        assert forall|i: int| 0 <= i < list.len() implies list[i] < adj.len() by {
            assert(adj[k - 1][i] < adj.len());
        }
        lemma_ascending_len_bound(list, adj.len() as int);
        lemma_count_below_bound(list, (k - 1) as u32);
        assert(upper_degree(adj, k - 1) <= u32::MAX);
        assert((k - 1) * u32::MAX + u32::MAX == k * u32::MAX) by (nonlinear_arith);
    }
}

/// A node of a simple graph has fewer neighbours than the graph has nodes.
pub proof fn lemma_degree_bound(adj: Seq<Seq<u32>>, u: int)
    requires
        adjacency_ok(adj),
        0 <= u < adj.len(),
    ensures
        adj[u].len() <= adj.len(),
        adj[u].to_set().finite(),
        adj[u].to_set().len() == adj[u].len(),
{
    let list = adj[u];
    assert forall|i: int| 0 <= i < list.len() implies list[i] < adj.len() by {
        assert(adj[u][i] < adj.len());
    }
    lemma_ascending_len_bound(list, adj.len() as int);
    lemma_ascending_set_len(list);
}

/// The ids of `members` up to position `i` are all below this bound, and the
/// ids from position `i` on are not.
pub open spec fn passed(members: Seq<u32>, i: int) -> nat {
    if i <= 0 {
        0
    } else {
        (members[i - 1] + 1) as nat
    }
}

/// The members of a set listed in ascending order leave no member between
/// the ids already passed and the next one.
pub proof fn lemma_gap(members: Seq<u32>, s: Set<u32>, i: int)
    requires
        strictly_ascending(members),
        members.to_set() == s,
        0 <= i <= members.len(),
    ensures
        i < members.len() ==> passed(members, i) <= members[i],
        forall|x: u32|
            passed(members, i) <= x && (i < members.len() ==> x < members[i]) ==> !s.contains(x),
{
    assert forall|x: u32|
        passed(members, i) <= x && (i < members.len() ==> x < members[i]) implies !s.contains(
        x,
    ) by {
        if s.contains(x) {
            assert(members.to_set().contains(x));
            let k = choose|k: int| 0 <= k < members.len() && members[k] == x;
            if k < i {
                if k < i - 1 {
                    assert(members[k] < members[i - 1]);
                }
            } else if k > i {
                assert(members[i] < members[k]);
            }
        }
    }
    if 0 < i < members.len() {
        assert(members[i - 1] < members[i]);
    }
}

/// A sum over members does not change along a stretch without members.
pub proof fn lemma_sum_skip(s: Set<u32>, a: nat, b: nat, f: spec_fn(int) -> int)
    requires
        a <= b,
        forall|x: u32| a <= x < b ==> !s.contains(x),
        b <= u32::MAX + 1,
    ensures
        sum_members(s, a, f) == sum_members(s, b, f),
    decreases b,
{
    if a < b {
        lemma_sum_skip(s, a, (b - 1) as nat, f);
        assert(!s.contains((b - 1) as u32));
    }
}

/// The neighbours of `u` that are greater than `u` are those from position
/// `count_below` on, and the ids of the edges to them fill the stretch from
/// the offset of `u` to that of `u + 1`.
pub proof fn lemma_edge_id_range(adj: Seq<Seq<u32>>, u: int, j: int)
    requires
        adjacency_ok(adj),
        0 <= u < adj.len(),
        0 <= j < adj[u].len(),
    ensures
        adj[u][j] > u <==> count_below(adj[u], u as u32) <= j,
        adj[u][j] > u ==> offset_at(adj, u as nat) <= edge_id(adj, u, j) < offset_at(
            adj,
            (u + 1) as nat,
        ),
{
    lemma_count_below_split(adj[u], u as u32);
    assert(adj[u][j] != u);
}

/// The edge count of a simple graph on 32-bit node ids fits 64 bits.
pub proof fn lemma_edge_count_fits(adj: Seq<Seq<u32>>, k: nat)
    requires
        adjacency_ok(adj),
        k <= adj.len(),
    ensures
        offset_at(adj, k) <= u64::MAX,
{
    lemma_offset_bound(adj, k);
    assert(k * u32::MAX <= 0xffff_ffff * 0xffff_ffff) by (nonlinear_arith)
        requires
            k <= 0xffff_ffff,
    ;
}

} // verus!
