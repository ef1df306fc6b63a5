//! The table of the nodes of a graph: external id, degree, and on demand the
//! neighbours in external ids and the labels of the clusters of each node.

use crate::bitmap::bitmap_members;
use crate::bitmap::bitmap_to_vec;
use crate::bitmap::strictly_ascending;
use crate::cluster::duplicate_label;
use crate::cluster::ClusterModel;
use crate::cluster::ClusterTable;
use crate::cluster::Label;
use crate::error::Error;
use crate::graph::Graph;
use crate::lookup::named;
use crate::model::GraphModel;
use vstd::prelude::*;

verus! {

/// One row per node, in columns.
pub struct NodeTable {
    /// The external id of each node.
    pub node: Vec<u32>,
    /// The degree of each node.
    pub degree: Vec<u32>,
    /// The neighbours of each node in external ids, where they were asked
    /// for.
    pub adj: Option<Vec<Vec<u32>>>,
    /// The labels of the clusters that hold each node, where clusters were
    /// given.
    pub labels: Option<Vec<Vec<Option<Label>>>>,
}

/// The labels of the clusters of `rows` that hold the node `u`, in the order
/// of the rows.
pub open spec fn labels_of(rows: Seq<ClusterModel>, u: u32) -> Seq<Option<Label>>
    decreases rows.len(),
{
    if rows.len() == 0 {
        Seq::empty()
    } else {
        let rest = labels_of(rows.drop_last(), u);
        if rows.last().members.contains(u) {
            rest.push(rows.last().label)
        } else {
            rest
        }
    }
}

/// Every cluster of `rows` holds nodes of the graph only.
pub open spec fn all_covered(g: GraphModel, rows: Seq<ClusterModel>) -> bool {
    forall|r: int| 0 <= r < rows.len() ==> g.covers((#[trigger] rows[r]).members)
}

/// The external id of each node.
fn node_names(g: &Graph) -> (names: Vec<u32>)
    ensures
        names@ == g@.names,
        g@.valid(),
{
    let n = g.n();
    let mut names: Vec<u32> = Vec::new();
    let mut u: u32 = 0;
    while u < n
        invariant
            n == g@.n(),
            g@.valid(),
            u <= n,
            names@.len() == u,
            forall|k: int| 0 <= k < u ==> names@[k] == g@.names[k],
        decreases n - u,
    {
        names.push(g.name(u));
        u += 1;
    }
    proof {
        assert(names@ =~= g@.names);
    }
    names
}

/// The degree of each node.
fn node_degrees(g: &Graph) -> (degrees: Vec<u32>)
    ensures
        degrees@.len() == g@.n(),
        forall|u: int| 0 <= u < g@.n() ==> (#[trigger] degrees@[u]) == g@.adj[u].len(),
{
    let n = g.n();
    let mut degrees: Vec<u32> = Vec::new();
    let mut u: u32 = 0;
    while u < n
        invariant
            n == g@.n(),
            u <= n,
            degrees@.len() == u,
            forall|k: int| 0 <= k < u ==> (#[trigger] degrees@[k]) == g@.adj[k].len(),
        decreases n - u,
    {
        degrees.push(g.degree(u));
        u += 1;
    }
    degrees
}

/// The neighbours of each node, written in external ids.
fn named_adjacency(g: &Graph) -> (lists: Vec<Vec<u32>>)
    ensures
        lists@.len() == g@.n(),
        forall|u: int| 0 <= u < g@.n() ==> (#[trigger] lists@[u])@ == named(g@, g@.adj[u]),
{
    let n = g.n();
    let mut lists: Vec<Vec<u32>> = Vec::new();
    let mut u: u32 = 0;
    while u < n
        invariant
            n == g@.n(),
            g@.valid(),
            u <= n,
            lists@.len() == u,
            forall|k: int| 0 <= k < u ==> (#[trigger] lists@[k])@ == named(g@, g@.adj[k]),
        decreases n - u,
    {
        let neighbors = g.neighbors(u);
        let mut list: Vec<u32> = Vec::new();
        let mut j: usize = 0;
        while j < neighbors.len()
            invariant
                n == g@.n(),
                g@.valid(),
                u < n,
                neighbors@ == g@.adj[u as int],
                j <= neighbors@.len(),
                list@.len() == j,
                forall|k: int| 0 <= k < j ==> list@[k] == g@.names[neighbors@[k] as int],
            decreases neighbors@.len() - j,
        {
            proof {
                assert(g@.adj[u as int][j as int] < n);
            }
            list.push(g.name(neighbors[j]));
            j += 1;
        }
        proof {
            assert(list@ =~= named(g@, g@.adj[u as int]));
        }
        lists.push(list);
        u += 1;
    }
    lists
}

/// For each node the labels of the clusters of `clus` that hold it, in the
/// order of the rows.
fn node_labels(g: &Graph, clus: &ClusterTable) -> (found: Result<Vec<Vec<Option<Label>>>, Error>)
    ensures
        match found {
            Ok(labels) => {
                &&& all_covered(g@, clus@)
                &&& labels@.len() == g@.n()
                &&& forall|u: int|
                    0 <= u < g@.n() ==> (#[trigger] labels@[u])@ == labels_of(clus@, u as u32)
            },
            Err(e) => e == Error::InvalidNodeId && !all_covered(g@, clus@),
        },
{
    let n = g.n();
    let ghost rows = clus@;
    let mut labels: Vec<Vec<Option<Label>>> = Vec::new();
    let mut u: u32 = 0;
    while u < n
        invariant
            u <= n,
            labels@.len() == u,
            forall|k: int| 0 <= k < u ==> (#[trigger] labels@[k])@ == Seq::<Option<Label>>::empty(),
        decreases n - u,
    {
        labels.push(Vec::new());
        u += 1;
    }
    let mut r: usize = 0;
    proof {
        assert(rows.take(0) == Seq::<ClusterModel>::empty());
    }
    while r < clus.rows.len()
        invariant
            n == g@.n(),
            rows == clus@,
            r <= rows.len(),
            labels@.len() == n,
            forall|k: int| 0 <= k < r ==> g@.covers((#[trigger] rows[k]).members),
            forall|x: int|
                0 <= x < n ==> (#[trigger] labels@[x])@ == labels_of(rows.take(r as int), x as u32),
        decreases rows.len() - r,
    {
        let row = &clus.rows[r];
        let members = bitmap_to_vec(&row.nodes);
        let ghost s = bitmap_members(row.nodes);
        let ghost base = rows.take(r as int);
        let ghost next = rows.take(r + 1);
        proof {
            assert(next.drop_last() == base);
            assert(next.last() == rows[r as int]);
            assert(rows[r as int] == row@);
        }
        let mut k: usize = 0;
        while k < members.len()
            invariant
                n == g@.n(),
                rows == clus@,
                r < rows.len(),
                row == clus.rows@[r as int],
                s == bitmap_members(row.nodes),
                base == rows.take(r as int),
                strictly_ascending(members@),
                members@.to_set() == s,
                k <= members@.len(),
                labels@.len() == n,
                forall|i: int| 0 <= i < k ==> members@[i] < n,
                forall|x: int|
                    0 <= x < n ==> (#[trigger] labels@[x])@ == if exists|i: int|
                        0 <= i < k && members@[i] == x {
                        labels_of(base, x as u32).push(row.label)
                    } else {
                        labels_of(base, x as u32)
                    },
            decreases members@.len() - k,
        {
            let node = members[k];
            if node >= n {
                proof {
                    assert(members@.to_set().contains(members@[k as int]));
                    assert(!g@.covers(rows[r as int].members));
                }
                return Err(Error::InvalidNodeId);
            }
            let ghost before = labels@;
            let label = duplicate_label(&row.label);
            labels[node as usize].push(label);
            proof {
                assert forall|x: int| 0 <= x < n implies (#[trigger] labels@[x])@ == if exists|
                    i: int,
                | 0 <= i < k + 1 && members@[i] == x {
                    labels_of(base, x as u32).push(row.label)
                } else {
                    labels_of(base, x as u32)
                } by {
                    if x == node {
                        assert(members@[k as int] == x);
                        if exists|i: int| 0 <= i < k && members@[i] == x {
                            let i = choose|i: int| 0 <= i < k && members@[i] == x;
                            assert(members@[i] < members@[k as int]);
                        }
                        assert(labels@[x]@ == before[x]@.push(row.label));
                    } else {
                        assert(labels@[x] == before[x]);
                        if exists|i: int| 0 <= i < k + 1 && members@[i] == x {
                            let i = choose|i: int| 0 <= i < k + 1 && members@[i] == x;
                            assert(0 <= i < k && members@[i] == x);
                        }
                        if exists|i: int| 0 <= i < k && members@[i] == x {
                            let i = choose|i: int| 0 <= i < k && members@[i] == x;
                            assert(0 <= i < k + 1 && members@[i] == x);
                        }
                    }
                }
            }
            k += 1;
        }
        proof {
            assert forall|x: u32| s.contains(x) implies x < n by {
                assert(members@.to_set().contains(x));
                let i = choose|i: int| 0 <= i < members@.len() && members@[i] == x;
            }
            assert forall|x: int| 0 <= x < n implies (#[trigger] labels@[x])@ == labels_of(
                next,
                x as u32,
            ) by {
                if exists|i: int| 0 <= i < k && members@[i] == x {
                    let i = choose|i: int| 0 <= i < k && members@[i] == x;
                    assert(members@.to_set().contains(members@[i]));
                }
                if s.contains(x as u32) {
                    assert(members@.to_set().contains(x as u32));
                    let i = choose|i: int| 0 <= i < members@.len() && members@[i] == x as u32;
                    assert(0 <= i < k && members@[i] == x);
                }
            }
        }
        r += 1;
    }
    proof {
        assert(rows.take(r as int) == rows);
    }
    Ok(labels)
}

impl NodeTable {
    /// The table is that of the nodes of `g`, with the neighbours written out
    /// if `verbose`, and with the labels of the clusters of `clus` if there
    /// are any.
    pub open spec fn describes(self, g: GraphModel, clus: Option<Seq<ClusterModel>>, verbose: bool) -> bool {
        &&& self.node@ == g.names
        &&& self.degree@.len() == g.n()
        &&& forall|u: int| 0 <= u < g.n() ==> (#[trigger] self.degree@[u]) == g.adj[u].len()
        &&& match self.adj {
            Some(lists) => verbose && lists@.len() == g.n() && forall|u: int|
                0 <= u < g.n() ==> (#[trigger] lists@[u])@ == named(g, g.adj[u]),
            None => !verbose,
        }
        &&& match self.labels {
            Some(labels) => clus is Some && labels@.len() == g.n() && forall|u: int|
                0 <= u < g.n() ==> (#[trigger] labels@[u])@ == labels_of(clus->0, u as u32),
            None => clus is None,
        }
    }
}

impl NodeTable {
    /// For each node the number of clusters that hold it, where clusters
    /// were given.
    pub fn multiplicities(&self) -> (counts: Option<Vec<usize>>)
        ensures
            match counts {
                Some(found) => self.labels is Some && found@.len() == self.labels->0@.len()
                    && forall|u: int|
                    0 <= u < found@.len() ==> (#[trigger] found@[u]) == self.labels->0@[u]@.len(),
                None => self.labels is None,
            },
    {
        match &self.labels {
            Some(labels) => {
                let mut found: Vec<usize> = Vec::new();
                let mut u: usize = 0;
                while u < labels.len()
                    invariant
                        u <= labels@.len(),
                        found@.len() == u,
                        forall|k: int| 0 <= k < u ==> (#[trigger] found@[k]) == labels@[k]@.len(),
                    decreases labels@.len() - u,
                {
                    found.push(labels[u].len());
                    u += 1;
                }
                Some(found)
            },
            None => None,
        }
    }
}

impl Graph {
    /// The table of the nodes: for each node its external id and its degree;
    /// if `verbose`, its neighbours in external ids; and if clusters are
    /// given, the labels of the clusters that hold it. Clusters with a member
    /// that is no node of the graph are refused.
    pub fn nodes(&self, clus: Option<&ClusterTable>, verbose: bool) -> (table: Result<
        NodeTable,
        Error,
    >)
        ensures
            match table {
                Ok(t) => t.describes(
                    self@,
                    match clus {
                        Some(c) => Some(c@),
                        None => None,
                    },
                    verbose,
                ) && (clus matches Some(c) ==> all_covered(self@, c@)),
                Err(e) => e == Error::InvalidNodeId && clus is Some && !all_covered(
                    self@,
                    clus->0@,
                ),
            },
    {
        let labels = match clus {
            Some(c) => match node_labels(self, c) {
                Ok(labels) => Some(labels),
                Err(e) => {
                    return Err(e);
                },
            },
            None => None,
        };
        let node = node_names(self);
        let degree = node_degrees(self);
        let adj = if verbose {
            Some(named_adjacency(self))
        } else {
            None
        };
        Ok(NodeTable { node, degree, adj, labels })
    }
}

} // verus!
