//! The graph index: an immutable graph with dense node ids, ascending
//! neighbour lists, a numbering of its edges and a table of external ids.

use crate::bitmap::bitmap_from_sorted;
use crate::bitmap::bitmap_members;
use crate::bitmap::strictly_ascending;
use crate::components::CCLabels;
use crate::components::CacheAction;
use crate::components::CacheModel;
use crate::components::CacheState;
use crate::components::Cached;
use crate::components::ComponentLabelCache;
use crate::error::Error;
use crate::model::adjacency_ok;
use crate::model::all_ascending;
use crate::model::all_in_range;
use crate::model::count_below;
use crate::model::lemma_count_below_split;
use crate::model::lemma_edge_count_fits;
use crate::model::no_loops;
use crate::model::offset_at;
use crate::model::symmetric;
use crate::model::upper_degree;
use crate::model::GraphModel;
use roaring::RoaringBitmap;
use std::collections::HashMap;
use vstd::prelude::*;
use vstd::std_specs::hash::*;

verus! {

/// The neighbour lists as mathematical sequences.
pub open spec fn lists(adj: Seq<Vec<u32>>) -> Seq<Seq<u32>> {
    Seq::new(adj.len(), |u: int| adj[u]@)
}

/// `index` sends each entry of `names` to its position, and knows no other
/// key.
pub open spec fn index_matches(index: Map<u32, u32>, names: Seq<u32>) -> bool {
    &&& forall|i: int|
        0 <= i < names.len() ==> index.contains_key(#[trigger] names[i]) && index[names[i]] == i
    &&& forall|k: u32| #[trigger] index.contains_key(k) ==> names.contains(k)
}

/// The first reason, if any, for which a graph description is refused:
/// a list out of order, then an id out of range, then a contradiction between
/// its parts.
pub open spec fn input_defect(adj: Seq<Seq<u32>>, names: Seq<u32>) -> Option<Error> {
    if !all_ascending(adj) {
        Some(Error::MalformedSet)
    } else if adj.len() > u32::MAX || !all_in_range(adj) {
        Some(Error::InvalidNodeId)
    } else if !no_loops(adj) || !symmetric(adj) || names.len() != adj.len()
        || !names.no_duplicates() {
        Some(Error::InconsistentGraph)
    } else {
        None
    }
}

/// What becomes of an answer of the labelling oracle before it is kept for
/// a graph of `n` nodes: labels that are not those of such a graph count as
/// a failure of the oracle.
pub open spec fn checked_labels(outcome: Result<CCLabels, Error>, n: nat) -> Result<
    CCLabels,
    Error,
> {
    match outcome {
        Ok(labels) => if labels.fits(n) {
            Ok(labels)
        } else {
            Err(Error::InconsistentGraph)
        },
        Err(e) => Err(e),
    }
}

/// A graph. Nodes are `0..n`; the neighbours of each node are kept in
/// ascending order, once as a list and once as a bitmap; `offsets` numbers
/// the edges; `names` and `index` translate between node ids and external
/// ids; `cc` keeps the component labels once they are computed. All but `cc`
/// never changes.
pub struct Graph {
    adj: Vec<Vec<u32>>,
    nbrs: Vec<RoaringBitmap>,
    offsets: Vec<u64>,
    names: Vec<u32>,
    index: HashMap<u32, u32>,
    cc: ComponentLabelCache,
}

impl View for Graph {
    type V = GraphModel;

    closed spec fn view(&self) -> GraphModel {
        GraphModel { adj: lists(self.adj@), names: self.names@ }
    }
}

/// The position of the first entry of `list` that is not below `x`.
fn position_of(list: &Vec<u32>, x: u32) -> (at: usize)
    requires
        strictly_ascending(list@),
    ensures
        at == count_below(list@, x),
        at <= list@.len(),
{
    let mut at: usize = 0;
    while at < list.len() && list[at] < x
        invariant
            at <= list@.len(),
            forall|i: int| 0 <= i < at ==> list@[i] < x,
        decreases list@.len() - at,
    {
        at += 1;
    }
    proof {
        lemma_count_below_split(list@, x);
        let c = count_below(list@, x) as int;
        if at < c {
            assert(list@[at as int] < x);
        }
        if c < at {
            assert(list@[c] < x);
        }
    }
    at
}

/// One bitmap per neighbour list, or `None` when a list is out of order.
fn neighbor_sets(adj: &Vec<Vec<u32>>) -> (made: Option<Vec<RoaringBitmap>>)
    ensures
        made is Some <==> all_ascending(lists(adj@)),
        made matches Some(nbrs) ==> nbrs@.len() == adj@.len() && forall|u: int|
            0 <= u < adj@.len() ==> bitmap_members(#[trigger] nbrs@[u]) == adj@[u]@.to_set(),
{
    let mut nbrs: Vec<RoaringBitmap> = Vec::new();
    let mut u: usize = 0;
    while u < adj.len()
        invariant
            u <= adj@.len(),
            nbrs@.len() == u,
            forall|k: int| 0 <= k < u ==> strictly_ascending(#[trigger] lists(adj@)[k]),
            forall|k: int| 0 <= k < u ==> bitmap_members(#[trigger] nbrs@[k]) == adj@[k]@.to_set(),
        decreases adj@.len() - u,
    {
        match bitmap_from_sorted(&adj[u]) {
            Ok(b) => {
                nbrs.push(b);
            },
            Err(_) => {
                proof {
                    assert(!strictly_ascending(lists(adj@)[u as int]));
                }
                return None;
            },
        }
        u += 1;
    }
    Some(nbrs)
}

/// Whether every listed neighbour is a node of the graph.
fn ids_in_range(adj: &Vec<Vec<u32>>) -> (ok: bool)
    requires
        all_ascending(lists(adj@)),
    ensures
        ok <==> all_in_range(lists(adj@)),
{
    let n = adj.len();
    let mut u: usize = 0;
    while u < n
        invariant
            n == adj@.len(),
            u <= n,
            all_ascending(lists(adj@)),
            forall|k: int, j: int|
                0 <= k < u && 0 <= j < lists(adj@)[k].len() ==> (#[trigger] lists(adj@)[k][j]) < n,
        decreases n - u,
    {
        let list = &adj[u];
        let len = list.len();
        proof {
            assert(strictly_ascending(lists(adj@)[u as int]));
            assert(lists(adj@)[u as int] == list@);
        }
        if len > 0 && list[len - 1] as usize >= n {
            proof {
                assert(!(lists(adj@)[u as int][len - 1] < lists(adj@).len()));
            }
            return false;
        }
        proof {
            assert forall|j: int| 0 <= j < len implies (#[trigger] lists(adj@)[u as int][j]) < n by {
                if j < len - 1 {
                    assert(list@[j] < list@[len - 1]);
                }
            }
        }
        u += 1;
    }
    true
}

/// Whether no node lists itself and every listing is mutual.
fn listings_mutual(adj: &Vec<Vec<u32>>, nbrs: &Vec<RoaringBitmap>) -> (ok: bool)
    requires
        adj@.len() <= u32::MAX,
        all_in_range(lists(adj@)),
        nbrs@.len() == adj@.len(),
        forall|u: int| 0 <= u < adj@.len() ==> bitmap_members(#[trigger] nbrs@[u]) == adj@[u]@.to_set(),
    ensures
        ok <==> no_loops(lists(adj@)) && symmetric(lists(adj@)),
{
    let n = adj.len();
    let mut u: usize = 0;
    while u < n
        invariant
            n == adj@.len(),
            n <= u32::MAX,
            u <= n,
            all_in_range(lists(adj@)),
            nbrs@.len() == n,
            forall|k: int| 0 <= k < n ==> bitmap_members(#[trigger] nbrs@[k]) == adj@[k]@.to_set(),
            forall|k: int, j: int|
                0 <= k < u && 0 <= j < lists(adj@)[k].len() ==> (#[trigger] lists(adj@)[k][j]) != k
                    && lists(adj@)[lists(adj@)[k][j] as int].contains(k as u32),
        decreases n - u,
    {
        let list = &adj[u];
        let mut j: usize = 0;
        while j < list.len()
            invariant
                n == adj@.len(),
                n <= u32::MAX,
                u < n,
                list@ == lists(adj@)[u as int],
                j <= list@.len(),
                all_in_range(lists(adj@)),
                nbrs@.len() == n,
                forall|k: int|
                    0 <= k < n ==> bitmap_members(#[trigger] nbrs@[k]) == adj@[k]@.to_set(),
                forall|i: int|
                    0 <= i < j ==> (#[trigger] lists(adj@)[u as int][i]) != u && lists(
                        adj@,
                    )[lists(adj@)[u as int][i] as int].contains(u as u32),
            decreases list@.len() - j,
        {
            let v = list[j];
            proof {
                assert(lists(adj@)[u as int][j as int] < n);
                assert(lists(adj@)[v as int] == adj@[v as int]@);
            }
            if v as usize == u || !nbrs[v as usize].contains(u as u32) {
                proof {
                    let l = lists(adj@);
                    assert(l[u as int][j as int] == u || !l[l[u as int][j as int] as int].contains(
                        u as u32,
                    ));
                }
                return false;
            }
            j += 1;
        }
        u += 1;
    }
    true
}

/// The edge numbering: for each `u` from 0 to the number of nodes, how many
/// edges have their smaller end below `u`.
fn edge_offsets(adj: &Vec<Vec<u32>>) -> (offsets: Vec<u64>)
    requires
        adjacency_ok(lists(adj@)),
    ensures
        offsets@.len() == adj@.len() + 1,
        forall|u: int|
            0 <= u <= adj@.len() ==> (#[trigger] offsets@[u]) == offset_at(lists(adj@), u as nat),
{
    let n = adj.len();
    let mut offsets: Vec<u64> = Vec::new();
    let mut total: u64 = 0;
    offsets.push(total);
    let mut u: usize = 0;
    while u < n
        invariant
            n == adj@.len(),
            u <= n,
            adjacency_ok(lists(adj@)),
            total == offset_at(lists(adj@), u as nat),
            offsets@.len() == u + 1,
            forall|k: int|
                0 <= k <= u ==> (#[trigger] offsets@[k]) == offset_at(lists(adj@), k as nat),
        decreases n - u,
    {
        let list = &adj[u];
        proof {
            assert(strictly_ascending(lists(adj@)[u as int]));
            assert(lists(adj@)[u as int] == list@);
        }
        let below = position_of(list, u as u32);
        let upper = list.len() - below;
        proof {
            assert(upper == upper_degree(lists(adj@), u as int));
            lemma_edge_count_fits(lists(adj@), (u + 1) as nat);
        }
        total = total + upper as u64;
        offsets.push(total);
        u += 1;
    }
    offsets
}

/// The table from external id to node id, or `None` when two nodes share an
/// external id.
fn name_index(names: &Vec<u32>) -> (made: Option<HashMap<u32, u32>>)
    requires
        names@.len() <= u32::MAX,
    ensures
        made is Some <==> names@.no_duplicates(),
        made matches Some(index) ==> index_matches(index@, names@),
{
    broadcast use group_hash_axioms;

    let mut index: HashMap<u32, u32> = HashMap::new();
    let mut i: usize = 0;
    while i < names.len()
        invariant
            i <= names@.len(),
            names@.len() <= u32::MAX,
            index_matches(index@, names@.take(i as int)),
            names@.take(i as int).no_duplicates(),
        decreases names@.len() - i,
    {
        let name = names[i];
        if index.contains_key(&name) {
            proof {
                let j = choose|j: int| 0 <= j < i && names@.take(i as int)[j] == name;
                assert(names@[j] == names@[i as int]);
            }
            return None;
        }
        index.insert(name, i as u32);
        proof {
            let before = names@.take(i as int);
            let after = names@.take(i + 1);
            assert(after == before.push(name));
            assert forall|k: u32| #[trigger] index@.contains_key(k) implies after.contains(k) by {
                if k == name {
                    assert(after[i as int] == name);
                } else {
                    let j = choose|j: int| 0 <= j < before.len() && before[j] == k;
                    assert(after[j] == k);
                }
            }
            assert forall|a: int| 0 <= a < after.len() implies index@.contains_key(
                #[trigger] after[a],
            ) && index@[after[a]] == a by {
                if a < i {
                    assert(before[a] == after[a]);
                    assert(before.contains(before[a]));
                }
            }
            assert forall|a: int, b: int|
                0 <= a < after.len() && 0 <= b < after.len() && a != b implies after[a]
                != after[b] by {
                if a < i && b < i {
                    assert(before[a] != before[b]);
                } else if a < i {
                    assert(before.contains(before[a]));
                } else if b < i {
                    assert(before.contains(before[b]));
                }
            }
        }
        i += 1;
    }
    proof {
        assert(names@.take(i as int) == names@);
    }
    Some(index)
}

impl Graph {
    /// The invariant of the representation: the lists describe a valid
    /// graph, and the bitmaps, the edge numbering and the id table agree with
    /// them.
    #[verifier::type_invariant]
    pub closed spec fn wf(&self) -> bool {
        &&& self@.valid()
        &&& self.nbrs@.len() == self.adj@.len()
        &&& forall|u: int|
            0 <= u < self.adj@.len() ==> bitmap_members(#[trigger] self.nbrs@[u])
                == self.adj@[u]@.to_set()
        &&& self.offsets@.len() == self.adj@.len() + 1
        &&& forall|u: int|
            0 <= u <= self.adj@.len() ==> (#[trigger] self.offsets@[u]) == offset_at(
                lists(self.adj@),
                u as nat,
            )
        &&& index_matches(self.index@, self.names@)
        &&& self.cc@.consistent()
        &&& self.cc@.state matches CacheState::Computed(labels) ==> labels.fits(
            self.adj@.len() as nat,
        )
    }

    /// The cache of component labels as a value.
    pub closed spec fn cache(&self) -> CacheModel {
        self.cc@
    }

    /// The graph behind a graph index is a valid one, and its edge count
    /// fits 64 bits.
    pub proof fn lemma_valid(&self)
        requires
            self.wf(),
        ensures
            self@.valid(),
            self@.m() <= u64::MAX,
    {
        lemma_edge_count_fits(self@.adj, self@.adj.len());
    }

    /// Builds the graph index from the neighbour list and the external id of
    /// each node. The description is refused with the first defect that
    /// [`input_defect`] finds in it.
    pub fn new(adj: Vec<Vec<u32>>, names: Vec<u32>) -> (made: Result<Graph, Error>)
        ensures
            match made {
                Ok(g) => input_defect(lists(adj@), names@) is None && g@.valid() && g@ == (GraphModel {
                    adj: lists(adj@),
                    names: names@,
                }) && g.cache() == CacheModel::fresh(),
                Err(e) => input_defect(lists(adj@), names@) == Some(e),
            },
    {
        let nbrs = match neighbor_sets(&adj) {
            Some(nbrs) => nbrs,
            None => {
                return Err(Error::MalformedSet);
            },
        };
        if adj.len() > u32::MAX as usize || !ids_in_range(&adj) {
            return Err(Error::InvalidNodeId);
        }
        if !listings_mutual(&adj, &nbrs) || names.len() != adj.len() {
            return Err(Error::InconsistentGraph);
        }
        let index = match name_index(&names) {
            Some(index) => index,
            None => {
                return Err(Error::InconsistentGraph);
            },
        };
        let offsets = edge_offsets(&adj);
        proof {
            lemma_edge_count_fits(lists(adj@), adj@.len());
        }
        Ok(Graph { adj, nbrs, offsets, names, index, cc: ComponentLabelCache::new() })
    }

    /// A caller asks for the component labels and is told what to do: the
    /// first one to run the labelling oracle, those who ask while it runs to
    /// wait, and all later ones to read.
    pub fn request_cc_labels(&mut self) -> (action: CacheAction)
        ensures
            action == old(self).cache().action(),
            final(self).cache() == old(self).cache().requested(),
            final(self)@ == old(self)@,
    {
        proof {
            use_type_invariant(&*self);
        }
        self.cc.request()
    }

    /// The caller who ran the labelling oracle hands in its answer. Labels
    /// that are not those of this graph are kept as a failure.
    pub fn complete_cc_labels(&mut self, outcome: Result<CCLabels, Error>)
        ensures
            final(self).cache() == old(self).cache().completed(
                checked_labels(outcome, old(self)@.n()),
            ),
            final(self)@ == old(self)@,
    {
        proof {
            use_type_invariant(&*self);
        }
        let n = self.adj.len() as u32;
        let checked = match outcome {
            Ok(labels) => if labels.is_fit(n) {
                Ok(labels)
            } else {
                Err(Error::InconsistentGraph)
            },
            Err(e) => Err(e),
        };
        self.cc.complete(checked);
    }

    /// The component labels, as far as they are there. Labels that are
    /// there are those of this graph.
    pub fn get_cc_labels(&self) -> (found: Cached<&CCLabels>)
        ensures
            match found {
                Cached::Ready(labels) => self.cache().read() == Cached::Ready(*labels)
                    && labels.fits(self@.n()),
                Cached::Failed(e) => self.cache().read() == Cached::<CCLabels>::Failed(e),
                Cached::Pending => self.cache().read() is Pending,
            },
    {
        proof {
            use_type_invariant(self);
        }
        self.cc.get()
    }

    /// How often a caller was told to run the labelling oracle: never more
    /// than once.
    pub fn oracle_calls(&self) -> (calls: u64)
        ensures
            calls == self.cache().oracle_calls,
            calls <= 1,
    {
        self.cc.oracle_calls()
    }

    /// The number of nodes.
    pub fn n(&self) -> (n: u32)
        ensures
            self@.valid(),
            n == self@.n(),
    {
        proof {
            use_type_invariant(self);
        }
        self.adj.len() as u32
    }

    /// The number of undirected edges.
    pub fn m(&self) -> (m: u64)
        ensures
            self@.valid(),
            m == self@.m(),
    {
        proof {
            use_type_invariant(self);
        }
        self.offsets[self.adj.len()]
    }

    /// The number of neighbours of `u`.
    pub fn degree(&self, u: u32) -> (d: u32)
        requires
            u < self@.n(),
        ensures
            self@.valid(),
            d == self@.adj[u as int].len(),
    {
        proof {
            use_type_invariant(self);
        }
        proof {
            crate::model::lemma_degree_bound(self@.adj, u as int);
        }
        self.adj[u as usize].len() as u32
    }

    /// The neighbours of `u`, smallest first.
    pub fn neighbors(&self, u: u32) -> (list: &Vec<u32>)
        requires
            u < self@.n(),
        ensures
            self@.valid(),
            list@ == self@.adj[u as int],
    {
        proof {
            use_type_invariant(self);
        }
        &self.adj[u as usize]
    }

    /// The neighbours of `u` as a bitmap.
    pub fn neighbor_set(&self, u: u32) -> (set: &RoaringBitmap)
        requires
            u < self@.n(),
        ensures
            self@.valid(),
            bitmap_members(*set) == self@.neighbors(u as int),
    {
        proof {
            use_type_invariant(self);
        }
        &self.nbrs[u as usize]
    }

    /// The number of edges whose smaller end is below `u`.
    pub fn offset(&self, u: u32) -> (offset: u64)
        requires
            u <= self@.n(),
        ensures
            self@.valid(),
            offset == offset_at(self@.adj, u as nat),
    {
        proof {
            use_type_invariant(self);
        }
        self.offsets[u as usize]
    }

    /// How many neighbours of `u` are smaller than `u`.
    pub fn lower_degree(&self, u: u32) -> (below: usize)
        requires
            u < self@.n(),
        ensures
            self@.valid(),
            below == count_below(self@.adj[u as int], u),
            below <= self@.adj[u as int].len(),
    {
        proof {
            use_type_invariant(self);
        }
        proof {
            assert(strictly_ascending(self@.adj[u as int]));
        }
        position_of(&self.adj[u as usize], u)
    }

    /// The external id of node `u`.
    pub fn name(&self, u: u32) -> (external: u32)
        requires
            u < self@.n(),
        ensures
            self@.valid(),
            external == self@.names[u as int],
    {
        proof {
            use_type_invariant(self);
        }
        self.names[u as usize]
    }

    /// The node whose external id is `external`, if the graph has one.
    pub fn retrieve(&self, external: u32) -> (found: Option<u32>)
        ensures
            self@.valid(),
            found == self@.retrieve(external),
            found matches Some(u) ==> u < self@.n() && self@.names[u as int] == external,
            found is None ==> !self@.names.contains(external),
    {
        proof {
            use_type_invariant(self);
        }
        broadcast use group_hash_axioms;

        match self.index.get(&external) {
            Some(u) => {
                proof {
                    let i = self@.names.index_of(external);
                    assert(self@.names.contains(external));
                    assert(self@.names[i] == external);
                    assert(self.index@[self.names@[i]] == i);
                }
                Some(*u)
            },
            None => {
                proof {
                    if self@.names.contains(external) {
                        let i = self@.names.index_of(external);
                        assert(self.index@.contains_key(self.names@[i]));
                    }
                }
                None
            },
        }
    }
}

} // verus!
