//! The projection of a node set onto the set of edges it induces.

use crate::bitmap::bitmap_members;
use crate::bitmap::bitmap_to_vec;
use crate::bitmap::strictly_ascending;
use crate::error::Error;
use crate::graph::Graph;
use crate::model::edge_id;
use crate::model::lemma_edge_count_fits;
use crate::model::lemma_edge_id_range;
use crate::model::lemma_gap;
use crate::model::lemma_offset_monotonic;
use crate::model::offset_at;
use crate::model::passed;
use crate::model::GraphModel;
use crate::sets::CompressedSet;
use crate::treemap::ids_of_any;
use crate::treemap::lemma_edge_set_finite;
use crate::treemap::strictly_ascending_ids;
use crate::treemap::treemap_union;
use crate::treemap::treemap_from_sorted;
use crate::treemap::treemap_members;
use roaring::RoaringBitmap;
use roaring::RoaringTreemap;
use vstd::prelude::*;

verus! {

/// Nothing is listed between two bounds when no member of `s` lies between
/// their nodes and the first of them has no position left.
proof fn lemma_listed_skip(g: GraphModel, s: Set<u32>, a: int, ja: int, b: int, e: u64)
    requires
        g.valid(),
        0 <= a <= b <= g.n(),
        a < g.n() ==> ja >= g.adj[a].len() || !s.contains(a as u32) || a == b,
        a == b ==> ja == 0,
        forall|x: u32| a < x < b ==> !s.contains(x),
    ensures
        g.listed_before(s, a, ja, e) <==> g.listed_before(s, b, 0, e),
{
    if g.listed_before(s, a, ja, e) {
        let (u, j) = choose|u: int, j: int| #[trigger]
            g.is_induced_edge(s, u, j) && e == edge_id(g.adj, u, j) && (u < a || (u == a && j
                < ja));
        assert(g.is_induced_edge(s, u, j) && e == edge_id(g.adj, u, j) && (u < b || (u == b && j
            < 0)));
    }
    if g.listed_before(s, b, 0, e) {
        let (u, j) = choose|u: int, j: int| #[trigger]
            g.is_induced_edge(s, u, j) && e == edge_id(g.adj, u, j) && (u < b || (u == b && j
                < 0));
        if u > a {
            assert(!s.contains(u as u32));
        }
        assert(g.is_induced_edge(s, u, j) && e == edge_id(g.adj, u, j) && (u < a || (u == a && j
            < ja)));
    }
}

/// Maps the node set `nodes` to the ids of the edges of `g` with both ends
/// in it. Members are visited in ascending order, and for each the
/// neighbours greater than it in ascending order, so the ids come out
/// ascending and each edge once.
pub fn edgeset(g: &Graph, nodes: &RoaringBitmap) -> (projected: Result<RoaringTreemap, Error>)
    ensures
        match projected {
            Ok(edges) => {
                &&& g@.covers(bitmap_members(*nodes))
                &&& treemap_members(edges) == g@.induced_edge_ids(bitmap_members(*nodes))
                &&& treemap_members(edges).len() == g@.internal_edges(bitmap_members(*nodes))
                &&& bitmap_members(*nodes) == crate::laws::all_nodes(g@.n()) ==> treemap_members(
                    edges,
                ) == Set::new(|e: u64| e < g@.m())
            },
            Err(e) => e == Error::InvalidNodeId && !g@.covers(bitmap_members(*nodes)),
        },
{
    let ghost s = bitmap_members(*nodes);
    let members = bitmap_to_vec(nodes);
    let n = g.n();
    let count = members.len();
    if count > 0 && members[count - 1] >= n {
        proof {
            assert(members@.to_set().contains(members@[count - 1]));
        }
        return Err(Error::InvalidNodeId);
    }
    proof {
        assert forall|u: u32| s.contains(u) implies u < n by {
            assert(members@.to_set().contains(u));
            let k = choose|k: int| 0 <= k < members@.len() && members@[k] == u;
            if k < count - 1 {
                assert(members@[k] < members@[count - 1]);
            }
        }
        assert forall|k: int| 0 <= k < members@.len() implies members@[k] < n by {
            assert(members@.to_set().contains(members@[k]));
        }
    }
    let mut ids: Vec<u64> = Vec::new();
    let mut i: usize = 0;
    while i < count
        invariant
            g@.valid(),
            n == g@.n(),
            s == bitmap_members(*nodes),
            strictly_ascending(members@),
            members@.to_set() == s,
            count == members@.len(),
            forall|k: int| 0 <= k < count ==> members@[k] < n,
            i <= count,
            strictly_ascending_ids(ids@),
            forall|k: int|
                0 <= k < ids@.len() ==> ids@[k] < offset_at(g@.adj, passed(members@, i as int)),
            forall|e: u64|
                ids@.contains(e) <==> g@.listed_before(s, passed(members@, i as int) as int, 0, e),
        decreases count - i,
    {
        let u = members[i];
        let list = g.neighbors(u);
        let first = g.lower_degree(u);
        let shift = g.offset(u);
        proof {
            lemma_gap(members@, s, i as int);
            lemma_offset_monotonic(g@.adj, passed(members@, i as int), u as nat);
            assert(s.contains(u)) by {
                assert(members@.to_set().contains(members@[i as int]));
            }
            assert forall|e: u64| ids@.contains(e) <==> g@.listed_before(
                s,
                u as int,
                first as int,
                e,
            ) by {
                let p = passed(members@, i as int) as int;
                if p < u {
                    lemma_listed_skip(g@, s, p, g@.adj[p].len() as int, u as int, e);
                    if g@.listed_before(s, p, 0, e) {
                        let (a, b) = choose|a: int, b: int| #[trigger]
                            g@.is_induced_edge(s, a, b) && e == edge_id(g@.adj, a, b) && (a < p || (
                            a == p && b < 0));
                        assert(g@.is_induced_edge(s, a, b) && e == edge_id(g@.adj, a, b) && (a < p
                            || (a == p && b < g@.adj[p].len())));
                    }
                    if g@.listed_before(s, p, g@.adj[p].len() as int, e) {
                        let (a, b) = choose|a: int, b: int| #[trigger]
                            g@.is_induced_edge(s, a, b) && e == edge_id(g@.adj, a, b) && (a < p || (
                            a == p && b < g@.adj[p].len()));
                        assert(!s.contains(p as u32));
                        assert(g@.is_induced_edge(s, a, b) && e == edge_id(g@.adj, a, b) && (a < p
                            || (a == p && b < 0)));
                    }
                }
                if g@.listed_before(s, u as int, 0, e) {
                    let (a, b) = choose|a: int, b: int| #[trigger]
                        g@.is_induced_edge(s, a, b) && e == edge_id(g@.adj, a, b) && (a < u || (a
                            == u && b < 0));
                    assert(g@.is_induced_edge(s, a, b) && e == edge_id(g@.adj, a, b) && (a < u || (a
                        == u && b < first)));
                }
                if g@.listed_before(s, u as int, first as int, e) {
                    let (a, b) = choose|a: int, b: int| #[trigger]
                        g@.is_induced_edge(s, a, b) && e == edge_id(g@.adj, a, b) && (a < u || (a
                            == u && b < first));
                    if a == u {
                        lemma_edge_id_range(g@.adj, a, b);
                    }
                    assert(g@.is_induced_edge(s, a, b) && e == edge_id(g@.adj, a, b) && (a < u || (a
                        == u && b < 0)));
                }
            }
        }
        let mut j: usize = first;
        while j < list.len()
            invariant
                g@.valid(),
                n == g@.n(),
                s == bitmap_members(*nodes),
                u < n,
                s.contains(u),
                list@ == g@.adj[u as int],
                first == crate::model::count_below(g@.adj[u as int], u),
                shift == offset_at(g@.adj, u as nat),
                first <= j <= list@.len(),
                strictly_ascending_ids(ids@),
                forall|k: int| 0 <= k < ids@.len() ==> ids@[k] < shift + (j - first),
                forall|e: u64| ids@.contains(e) <==> g@.listed_before(s, u as int, j as int, e),
            decreases list@.len() - j,
        {
            let v = list[j];
            let ghost before = ids@;
            proof {
                lemma_edge_id_range(g@.adj, u as int, j as int);
                lemma_offset_monotonic(g@.adj, (u + 1) as nat, n as nat);
                lemma_edge_count_fits(g@.adj, n as nat);
            }
            if nodes.contains(v) {
                ids.push(shift + (j - first) as u64);
            }
            proof {
                let id = (shift + (j - first)) as u64;
                assert(id == edge_id(g@.adj, u as int, j as int));
                assert forall|e: u64| ids@.contains(e) <==> g@.listed_before(
                    s,
                    u as int,
                    j + 1,
                    e,
                ) by {
                    if ids@.contains(e) {
                        let k = choose|k: int| 0 <= k < ids@.len() && ids@[k] == e;
                        if k < before.len() {
                            assert(before[k] == e);
                            assert(before.contains(e));
                            let (a, b) = choose|a: int, b: int| #[trigger]
                                g@.is_induced_edge(s, a, b) && e == edge_id(g@.adj, a, b) && (a < u
                                    || (a == u && b < j));
                            assert(g@.is_induced_edge(s, a, b) && e == edge_id(g@.adj, a, b) && (a
                                < u || (a == u && b < j + 1)));
                        } else {
                            assert(g@.is_induced_edge(s, u as int, j as int) && e == edge_id(
                                g@.adj,
                                u as int,
                                j as int,
                            ) && (u < u || (u == u && j < j + 1)));
                        }
                    }
                    if g@.listed_before(s, u as int, j + 1, e) {
                        let (a, b) = choose|a: int, b: int| #[trigger]
                            g@.is_induced_edge(s, a, b) && e == edge_id(g@.adj, a, b) && (a < u || (
                            a == u && b < j + 1));
                        if a == u && b == j {
                            assert(ids@[ids@.len() - 1] == e);
                        } else {
                            assert(g@.is_induced_edge(s, a, b) && e == edge_id(g@.adj, a, b) && (a
                                < u || (a == u && b < j)));
                            assert(before.contains(e));
                            let k = choose|k: int| 0 <= k < before.len() && before[k] == e;
                            assert(ids@[k] == e);
                        }
                    }
                }
            }
            j += 1;
        }
        proof {
            lemma_count_below_len(g@, u as int);
            assert(passed(members@, i + 1) == u + 1);
            assert forall|e: u64| ids@.contains(e) <==> g@.listed_before(s, u + 1, 0, e) by {
                lemma_listed_skip(g@, s, u as int, list@.len() as int, u + 1, e);
            }
        }
        i += 1;
    }
    proof {
        let p = passed(members@, count as int) as int;
        lemma_gap(members@, s, count as int);
        assert forall|e: u64| ids@.to_set().contains(e) <==> g@.induced_edge_ids(s).contains(
            e,
        ) by {
            if p < n {
                lemma_listed_skip(g@, s, p, g@.adj[p].len() as int, n as int, e);
                if g@.listed_before(s, p, 0, e) {
                    let (a, b) = choose|a: int, b: int| #[trigger]
                        g@.is_induced_edge(s, a, b) && e == edge_id(g@.adj, a, b) && (a < p || (a
                            == p && b < 0));
                    assert(g@.is_induced_edge(s, a, b) && e == edge_id(g@.adj, a, b) && (a < p || (a
                        == p && b < g@.adj[p].len())));
                }
                if g@.listed_before(s, p, g@.adj[p].len() as int, e) {
                    let (a, b) = choose|a: int, b: int| #[trigger]
                        g@.is_induced_edge(s, a, b) && e == edge_id(g@.adj, a, b) && (a < p || (a
                            == p && b < g@.adj[p].len()));
                    assert(!s.contains(p as u32));
                    assert(g@.is_induced_edge(s, a, b) && e == edge_id(g@.adj, a, b) && (a < p || (a
                        == p && b < 0)));
                }
            }
            if g@.listed_before(s, n as int, 0, e) {
                let (a, b) = choose|a: int, b: int| #[trigger]
                    g@.is_induced_edge(s, a, b) && e == edge_id(g@.adj, a, b) && (a < n || (a == n
                        && b < 0));
                assert(g@.is_induced_edge(s, a, b) && e == edge_id(g@.adj, a, b));
            }
            if g@.induced_edge_ids(s).contains(e) {
                let (a, b) = choose|a: int, b: int| #[trigger]
                    g@.is_induced_edge(s, a, b) && e == edge_id(g@.adj, a, b);
                assert(g@.is_induced_edge(s, a, b) && e == edge_id(g@.adj, a, b) && (a < n || (a
                    == n && b < 0)));
            }
        }
        assert(ids@.to_set() =~= g@.induced_edge_ids(s));
        crate::counting::lemma_internal_edges_are_induced(g@, s);
        if s == crate::laws::all_nodes(g@.n()) {
            crate::laws::lemma_full_projection(g@, s);
        }
    }
    match treemap_from_sorted(&ids) {
        Ok(edges) => Ok(edges),
        Err(_) => vstd::pervasive::unreached(),
    }
}

/// The positions below `count_below` do not pass the end of the list.
proof fn lemma_count_below_len(g: GraphModel, u: int)
    requires
        g.valid(),
        0 <= u < g.n(),
    ensures
        offset_at(g.adj, (u + 1) as nat) == offset_at(g.adj, u as nat) + g.adj[u].len()
            - crate::model::count_below(g.adj[u], u as u32),
{
    crate::model::lemma_count_below_bound(g.adj[u], u as u32);
}

/// Every id of an induced edge is below the number of edges.
pub proof fn lemma_induced_ids_in_range(g: GraphModel, s: Set<u32>)
    requires
        g.valid(),
    ensures
        forall|e: u64| #[trigger] g.induced_edge_ids(s).contains(e) ==> e < g.m(),
        g.induced_edge_ids(s).finite(),
        g.induced_edge_ids(s).len() <= g.m(),
{
    assert forall|e: u64| #[trigger] g.induced_edge_ids(s).contains(e) implies e < g.m() by {
        let (u, j) = choose|u: int, j: int| #[trigger]
            g.is_induced_edge(s, u, j) && e == edge_id(g.adj, u, j);
        lemma_edge_id_range(g.adj, u, j);
        lemma_offset_monotonic(g.adj, (u + 1) as nat, g.n());
    }
    lemma_ids_below(g.induced_edge_ids(s), g.m());
}

/// A set of ids below `bound` has at most `bound` members.
pub proof fn lemma_ids_below(ids: Set<u64>, bound: nat)
    requires
        forall|e: u64| #[trigger] ids.contains(e) ==> e < bound,
    ensures
        ids.finite(),
        ids.len() <= bound,
{
    lemma_edge_set_finite(ids);
    if bound <= u64::MAX {
        let all = Set::<u64>::range(0, bound as u64);
        vstd::set_lib::range_set_properties::<u64>(0, bound as u64);
        assert(ids.subset_of(all));
        vstd::set_lib::lemma_len_subset(ids, all);
    } else {
        let all = Set::<u64>::range_inclusive(0, u64::MAX);
        vstd::set_lib::range_set_properties::<u64>(0, u64::MAX);
        assert(ids.subset_of(all));
        vstd::set_lib::lemma_len_subset(ids, all);
    }
}

/// The node sets of bitmaps.
pub open spec fn member_sets(sets: Seq<RoaringBitmap>) -> Seq<Set<u32>> {
    Seq::new(sets.len(), |i: int| bitmap_members(sets[i]))
}

/// The ids of the edges that have both ends in one of the node sets.
pub open spec fn covered_ids(g: GraphModel, sets: Seq<Set<u32>>) -> Set<u64> {
    Set::new(
        |e: u64|
            exists|i: int| 0 <= i < sets.len() && #[trigger] g.induced_edge_ids(sets[i]).contains(e),
    )
}

/// Every node set holds nodes of the graph only.
pub open spec fn all_in_graph(g: GraphModel, sets: Seq<Set<u32>>) -> bool {
    forall|i: int| 0 <= i < sets.len() ==> g.covers(#[trigger] sets[i])
}

impl Graph {
    /// The set of induced edges of each node set, as a set of 64-bit ids.
    pub fn covered_edges(&self, sets: &Vec<RoaringBitmap>) -> (projected: Result<
        Vec<CompressedSet>,
        Error,
    >)
        ensures
            match projected {
                Ok(edges) => {
                    &&& all_in_graph(self@, member_sets(sets@))
                    &&& edges@.len() == sets@.len()
                    &&& forall|i: int|
                        0 <= i < sets@.len() ==> (#[trigger] edges@[i]) is Big && edges@[i]@
                            == self@.induced_edge_ids(bitmap_members(sets@[i]))
                },
                Err(e) => e == Error::InvalidNodeId && !all_in_graph(self@, member_sets(sets@)),
            },
    {
        let mut edges: Vec<CompressedSet> = Vec::new();
        let mut i: usize = 0;
        while i < sets.len()
            invariant
                i <= sets@.len(),
                edges@.len() == i,
                forall|k: int| 0 <= k < i ==> self@.covers(#[trigger] member_sets(sets@)[k]),
                forall|k: int|
                    0 <= k < i ==> (#[trigger] edges@[k]) is Big && edges@[k]@
                        == self@.induced_edge_ids(bitmap_members(sets@[k])),
            decreases sets@.len() - i,
        {
            match edgeset(self, &sets[i]) {
                Ok(one) => {
                    proof {
                        assert(member_sets(sets@)[i as int] == bitmap_members(sets@[i as int]));
                    }
                    edges.push(CompressedSet::Big(one));
                },
                Err(e) => {
                    proof {
                        assert(!self@.covers(member_sets(sets@)[i as int]));
                    }
                    return Err(e);
                },
            }
            i += 1;
        }
        Ok(edges)
    }

    /// The number of distinct edges that have both ends in one of the node
    /// sets.
    pub fn covered_edges_count(&self, sets: &Vec<RoaringBitmap>) -> (counted: Result<u64, Error>)
        ensures
            match counted {
                Ok(count) => all_in_graph(self@, member_sets(sets@)) && count == covered_ids(
                    self@,
                    member_sets(sets@),
                ).len(),
                Err(e) => e == Error::InvalidNodeId && !all_in_graph(self@, member_sets(sets@)),
            },
    {
        let mut edges: Vec<RoaringTreemap> = Vec::new();
        let mut i: usize = 0;
        while i < sets.len()
            invariant
                i <= sets@.len(),
                edges@.len() == i,
                forall|k: int| 0 <= k < i ==> self@.covers(#[trigger] member_sets(sets@)[k]),
                forall|k: int|
                    0 <= k < i ==> treemap_members(#[trigger] edges@[k]) == self@.induced_edge_ids(
                        bitmap_members(sets@[k]),
                    ),
            decreases sets@.len() - i,
        {
            match edgeset(self, &sets[i]) {
                Ok(one) => {
                    proof {
                        assert(member_sets(sets@)[i as int] == bitmap_members(sets@[i as int]));
                    }
                    edges.push(one);
                },
                Err(e) => {
                    proof {
                        assert(!self@.covers(member_sets(sets@)[i as int]));
                    }
                    return Err(e);
                },
            }
            i += 1;
        }
        let mut refs: Vec<&RoaringTreemap> = Vec::new();
        let mut k: usize = 0;
        while k < edges.len()
            invariant
                k <= edges@.len(),
                refs@.len() == k,
                forall|j: int| 0 <= j < k ==> *(#[trigger] refs@[j]) == edges@[j],
            decreases edges@.len() - k,
        {
            refs.push(&edges[k]);
            k += 1;
        }
        let all = treemap_union(&refs);
        proof {
            use_type_invariant(self);
            self.lemma_valid();
            let covered = covered_ids(self@, member_sets(sets@));
            assert forall|e: u64| ids_of_any(refs@).contains(e) <==> covered.contains(e) by {
                if ids_of_any(refs@).contains(e) {
                    let j = choose|j: int|
                        0 <= j < refs@.len() && #[trigger] treemap_members(*refs@[j]).contains(e);
                    assert(treemap_members(edges@[j]).contains(e));
                    assert(self@.induced_edge_ids(member_sets(sets@)[j]).contains(e));
                }
                if covered.contains(e) {
                    let j = choose|j: int|
                        0 <= j < sets@.len() && #[trigger] self@.induced_edge_ids(
                            member_sets(sets@)[j],
                        ).contains(e);
                    assert(treemap_members(edges@[j]).contains(e));
                    assert(treemap_members(*refs@[j]).contains(e));
                }
            }
            assert(ids_of_any(refs@) =~= covered);
            assert forall|e: u64| #[trigger] covered.contains(e) implies e < self@.m() by {
                let j = choose|j: int|
                    0 <= j < sets@.len() && #[trigger] self@.induced_edge_ids(
                        member_sets(sets@)[j],
                    ).contains(e);
                lemma_induced_ids_in_range(self@, member_sets(sets@)[j]);
            }
            lemma_ids_below(covered, self@.m());
        }
        Ok(all.len())
    }
}

} // verus!
