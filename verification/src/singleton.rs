//! The three ways to treat clusters of fewer than two nodes.

use crate::bitmap::bitmap_members;
use crate::cluster::cover;
use crate::cluster::cover_of;
use crate::cluster::models;
use crate::cluster::Cluster;
use crate::cluster::ClusterModel;
use crate::cluster::ClusterTable;
use crate::graph::Graph;
use roaring::RoaringBitmap;
use vstd::prelude::*;

verus! {

/// How clusters of fewer than two nodes are treated.
#[derive(Debug, Clone, Copy, PartialEq, Eq, Hash, Structural)]
pub enum SingletonMode {
    /// Small clusters are dropped, and every node that no remaining cluster
    /// holds gets a cluster of its own.
    AutoPopulate,
    /// Small clusters are dropped.
    Ignore,
    /// Every cluster stays.
    AsIs,
}

/// The least size with which a cluster stays in the table.
pub open spec fn size_floor(mode: SingletonMode) -> nat {
    match mode {
        SingletonMode::AutoPopulate => 2,
        SingletonMode::Ignore => 2,
        SingletonMode::AsIs => 0,
    }
}

/// The test for a cluster of at least `floor` members.
pub open spec fn large_enough(floor: nat) -> spec_fn(ClusterModel) -> bool {
    |c: ClusterModel| c.members.len() >= floor
}

/// The cluster that the engine makes up for a node that no cluster holds:
/// the node alone, without label and without statistics.
pub open spec fn lone_cluster(u: u32) -> ClusterModel {
    ClusterModel { label: None, members: set![u], stats: None }
}

/// The made-up clusters for the nodes below `k` that are not in `covered`,
/// in ascending order of the node.
pub open spec fn synthesized(covered: Set<u32>, k: nat) -> Seq<ClusterModel>
    decreases k,
{
    if k == 0 {
        Seq::empty()
    } else {
        let rest = synthesized(covered, (k - 1) as nat);
        if covered.contains((k - 1) as u32) {
            rest
        } else {
            rest.push(lone_cluster((k - 1) as u32))
        }
    }
}

/// The rows that the policy `mode` makes of `rows` in a graph of `n` nodes:
/// the rows that are large enough, in their order and unchanged, followed
/// under `AutoPopulate` by one made-up cluster for each node that none of
/// them holds.
pub open spec fn postprocessed(n: nat, rows: Seq<ClusterModel>, mode: SingletonMode) -> Seq<
    ClusterModel,
> {
    let kept = rows.filter(large_enough(size_floor(mode)));
    if mode == SingletonMode::AutoPopulate {
        kept + synthesized(cover(kept), n)
    } else {
        kept
    }
}

/// The rows of `rows` with at least `floor` members, in their order.
fn keep_large(rows: Vec<Cluster>, floor: u64) -> (kept: Vec<Cluster>)
    ensures
        models(kept@) == models(rows@).filter(large_enough(floor as nat)),
{
    let mut kept: Vec<Cluster> = Vec::new();
    let ghost all = rows@;
    let ghost test = large_enough(floor as nat);
    proof {
        reveal(Seq::filter);
        assert(models(all).take(0) == Seq::<ClusterModel>::empty());
        assert(models(kept@) == models(all).take(0).filter(test));
    }
    for row in it: rows
        invariant
            it.seq() == all,
            test == large_enough(floor as nat),
            models(kept@) == models(all).take(it.index() as int).filter(test),
    {
        let ghost before = kept@;
        let ghost i = it.index() as int;
        proof {
            reveal(Seq::filter);
            assert(models(all).take(i + 1).drop_last() == models(all).take(i));
            assert(models(all).take(i + 1).last() == row@);
        }
        if row.nodes.len() >= floor {
            kept.push(row);
            proof {
                assert(models(kept@) == models(before).push(row@));
            }
        }
    }
    proof {
        assert(models(all).take(all.len() as int) == models(all));
    }
    kept
}

/// For each row of `df`, whether the policy `mode` lets the cluster stay.
pub fn keep_mask(df: &ClusterTable, mode: SingletonMode) -> (mask: Vec<bool>)
    ensures
        mask@.len() == df@.len(),
        forall|i: int|
            0 <= i < df@.len() ==> (#[trigger] mask@[i]) == (df@[i].members.len()
                >= size_floor(mode)),
{
    let floor: u64 = match mode {
        SingletonMode::AsIs => 0,
        _ => 2,
    };
    let mut mask: Vec<bool> = Vec::new();
    let mut i: usize = 0;
    while i < df.rows.len()
        invariant
            i <= df.rows@.len(),
            floor == size_floor(mode),
            mask@.len() == i,
            forall|k: int|
                0 <= k < i ==> (#[trigger] mask@[k]) == (df@[k].members.len() >= floor),
        decreases df.rows@.len() - i,
    {
        mask.push(df.rows[i].nodes.len() >= floor);
        i += 1;
    }
    mask
}

/// Applies the singleton policy `mode` to the table `df` of clusters of
/// `g`.
pub fn postprocess_singleton_mode(g: &Graph, df: ClusterTable, mode: SingletonMode) -> (out:
    ClusterTable)
    ensures
        out@ == postprocessed(g@.n(), df@, mode),
        mode == SingletonMode::Ignore ==> forall|i: int|
            0 <= i < out@.len() ==> (#[trigger] out@[i]).members.len() >= 2,
        mode == SingletonMode::AutoPopulate ==> cover(out@) == cover(
            df@.filter(large_enough(2)),
        ).union(Set::new(|u: u32| u < g@.n())),
{
    let floor: u64 = match mode {
        SingletonMode::AsIs => 0,
        _ => 2,
    };
    proof {
        use_type_invariant(g);
        g.lemma_valid();
        lemma_ignore_drops_small(g@.n(), df@);
        lemma_autopopulate_covers(g@.n(), df@);
    }
    let mut rows = keep_large(df.rows, floor);
    match mode {
        SingletonMode::AutoPopulate => {
            let covered = cover_of(&rows);
            let ghost kept = models(rows@);
            let n = g.n();
            let mut u: u32 = 0;
            while u < n
                invariant
                    u <= n,
                    bitmap_members(covered) == cover(kept),
                    models(rows@) == kept + synthesized(cover(kept), u as nat),
                decreases n - u,
            {
                let ghost before = rows@;
                if !covered.contains(u) {
                    let mut nodes = RoaringBitmap::new();
                    nodes.insert(u);
                    let lone = Cluster { label: None, nodes, stats: None };
                    proof {
                        assert(lone@.members =~= set![u]);
                        assert(lone@ == lone_cluster(u));
                    }
                    rows.push(lone);
                    proof {
                        assert(models(rows@) == models(before).push(lone_cluster(u)));
                        assert(models(rows@) == kept + synthesized(cover(kept), (u + 1) as nat));
                    }
                }
                u += 1;
            }
        },
        _ => {},
    }
    ClusterTable { rows }
}

/// Under `AutoPopulate` the clusters of the result hold between them every
/// node of the graph, besides what the clusters that stayed hold; each
/// made-up cluster has no label and one member.
pub proof fn lemma_autopopulate_covers(n: nat, rows: Seq<ClusterModel>)
    requires
        n <= u32::MAX,
    ensures
        ({
            let kept = rows.filter(large_enough(2));
            let out = postprocessed(n, rows, SingletonMode::AutoPopulate);
            &&& cover(out) == cover(kept).union(Set::new(|u: u32| u < n))
            &&& out.len() >= kept.len()
            &&& forall|i: int|
                kept.len() <= i < out.len() ==> (#[trigger] out[i]).label is None
                    && out[i].members.len() == 1 && out[i].stats is None
        }),
{
    let kept = rows.filter(large_enough(2));
    let out = postprocessed(n, rows, SingletonMode::AutoPopulate);
    let extra = synthesized(cover(kept), n);
    lemma_synthesized(cover(kept), n);
    assert forall|x: u32| cover(out).contains(x) <==> cover(kept).union(
        Set::new(|u: u32| u < n),
    ).contains(x) by {
        if cover(out).contains(x) {
            let i = choose|i: int| 0 <= i < out.len() && #[trigger] out[i].members.contains(x);
            if i < kept.len() {
                assert(kept[i].members.contains(x));
            } else {
                assert(extra[i - kept.len()].members.contains(x));
            }
        }
        if cover(kept).contains(x) {
            let i = choose|i: int| 0 <= i < kept.len() && #[trigger] kept[i].members.contains(x);
            assert(out[i].members.contains(x));
        } else if x < n {
            let j = choose|j: int| 0 <= j < extra.len() && #[trigger] extra[j] == lone_cluster(x);
            assert(out[kept.len() + j].members.contains(x));
        }
    }
    assert(cover(out) =~= cover(kept).union(Set::new(|u: u32| u < n)));
    assert forall|i: int| kept.len() <= i < out.len() implies (#[trigger] out[i]).label is None
        && out[i].members.len() == 1 && out[i].stats is None by {
        let j = i - kept.len();
        assert(out[i] == extra[j]);
    }
}

/// The made-up clusters are the lone clusters of the nodes below `k` that
/// are not covered, each once.
pub proof fn lemma_synthesized(covered: Set<u32>, k: nat)
    requires
        k <= u32::MAX,
    ensures
        forall|j: int|
            0 <= j < synthesized(covered, k).len() ==> exists|u: u32|
                u < k && !covered.contains(u) && #[trigger] synthesized(covered, k)[j]
                    == lone_cluster(u),
        forall|j: int|
            0 <= j < synthesized(covered, k).len() ==> (#[trigger] synthesized(
                covered,
                k,
            )[j]).members.len() == 1 && synthesized(covered, k)[j].label is None && synthesized(
                covered,
                k,
            )[j].stats is None,
        forall|u: u32|
            u < k && !covered.contains(u) ==> exists|j: int|
                0 <= j < synthesized(covered, k).len() && #[trigger] synthesized(covered, k)[j]
                    == lone_cluster(u),
    decreases k,
{
    if k > 0 {
        let rest = synthesized(covered, (k - 1) as nat);
        let all = synthesized(covered, k);
        let last = (k - 1) as u32;
        lemma_synthesized(covered, (k - 1) as nat);
        assert forall|j: int| 0 <= j < all.len() implies exists|u: u32|
            u < k && !covered.contains(u) && #[trigger] all[j] == lone_cluster(u) by {
            if j < rest.len() {
                let u = choose|u: u32|
                    u < k - 1 && !covered.contains(u) && #[trigger] rest[j] == lone_cluster(u);
                assert(u < k && !covered.contains(u) && all[j] == lone_cluster(u));
            } else {
                assert(last < k && !covered.contains(last) && all[j] == lone_cluster(last));
            }
        }
        assert forall|j: int| 0 <= j < all.len() implies (#[trigger] all[j]).members.len() == 1
            && all[j].label is None && all[j].stats is None by {
            if j < rest.len() {
                assert(all[j] == rest[j]);
            } else {
                assert(all[j] == lone_cluster(last));
            }
        }
        assert forall|u: u32| u < k && !covered.contains(u) implies exists|j: int|
            0 <= j < all.len() && #[trigger] all[j] == lone_cluster(u) by {
            if u < k - 1 {
                let j = choose|j: int| 0 <= j < rest.len() && #[trigger] rest[j] == lone_cluster(u);
                assert(all[j] == lone_cluster(u));
            } else {
                assert(all[all.len() - 1] == lone_cluster(u));
            }
        }
    }
}

/// Under `AutoPopulate`, when no cluster names a node outside the graph, the
/// clusters of the result hold between them exactly the nodes of the graph.
pub proof fn lemma_autopopulate_exact(n: nat, rows: Seq<ClusterModel>)
    requires
        n <= u32::MAX,
        forall|i: int, x: u32|
            0 <= i < rows.len() && #[trigger] rows[i].members.contains(x) ==> x < n,
    ensures
        cover(postprocessed(n, rows, SingletonMode::AutoPopulate)) == Set::new(|u: u32| u < n),
{
    let kept = rows.filter(large_enough(2));
    lemma_autopopulate_covers(n, rows);
    assert forall|x: u32| cover(kept).contains(x) implies x < n by {
        let i = choose|i: int| 0 <= i < kept.len() && #[trigger] kept[i].members.contains(x);
        assert(kept.contains(kept[i]));
        rows.lemma_filter_contains_rev(large_enough(2), kept[i]);
        let k = choose|k: int| 0 <= k < rows.len() && rows[k] == kept[i];
        assert(rows[k].members.contains(x));
    }
    assert(cover(kept).union(Set::new(|u: u32| u < n)) =~= Set::new(|u: u32| u < n));
}

/// Under `Ignore` and under `AutoPopulate` no cluster that came with the
/// table and stayed has fewer than two members; under `Ignore` these are
/// all the clusters of the result.
pub proof fn lemma_ignore_drops_small(n: nat, rows: Seq<ClusterModel>)
    ensures
        forall|i: int|
            0 <= i < postprocessed(n, rows, SingletonMode::Ignore).len() ==> (#[trigger] postprocessed(
                n,
                rows,
                SingletonMode::Ignore,
            )[i]).members.len() >= 2,
{
    let out = postprocessed(n, rows, SingletonMode::Ignore);
    assert forall|i: int| 0 <= i < out.len() implies (#[trigger] out[i]).members.len() >= 2 by {
        rows.lemma_filter_pred(large_enough(2), i);
    }
}

} // verus!
