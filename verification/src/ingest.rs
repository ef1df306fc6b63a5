//! From the clusters as they are read, labels with lists of external ids,
//! to a table of clusters with statistics.

use crate::cluster::models;
use crate::cluster::Cluster;
use crate::cluster::ClusterModel;
use crate::cluster::ClusterTable;
use crate::cluster::Label;
use crate::codec::translate_ids;
use crate::error::Error;
use crate::graph::Graph;
use crate::model::GraphModel;
use crate::populate::populate_clusdf;
use crate::populate::populated_from;
use crate::singleton::large_enough;
use crate::singleton::lemma_synthesized;
use crate::singleton::postprocess_singleton_mode;
use crate::singleton::postprocessed;
use crate::singleton::size_floor;
use crate::singleton::synthesized;
use crate::singleton::SingletonMode;
use vstd::prelude::*;

verus! {

/// A cluster as it is read: its label and the external ids of its members,
/// either of which may be missing.
pub struct RawCluster {
    pub label: Option<Label>,
    pub ids: Option<Vec<u32>>,
}

/// The cluster that a raw cluster stands for in the graph `g`.
pub open spec fn raw_model(g: GraphModel, raw: RawCluster) -> ClusterModel {
    ClusterModel { label: raw.label, members: g.list_members(raw.ids), stats: None }
}

/// The clusters that raw clusters stand for, in their order.
pub open spec fn raw_models(g: GraphModel, raw: Seq<RawCluster>) -> Seq<ClusterModel> {
    Seq::new(raw.len(), |i: int| raw_model(g, raw[i]))
}

/// Every list names at most one id that the graph does not know.
pub open spec fn all_translate(g: GraphModel, raw: Seq<RawCluster>) -> bool {
    forall|i: int| 0 <= i < raw.len() ==> g.list_translates((#[trigger] raw[i]).ids)
}

/// The test for a raw cluster that has a list of at least `floor` ids.
pub open spec fn long_enough(floor: nat) -> spec_fn(RawCluster) -> bool {
    |raw: RawCluster|
        match raw.ids {
            Some(ids) => ids@.len() >= floor,
            None => false,
        }
}

/// Translates raw clusters into clusters without statistics.
fn translate_all(g: &Graph, raw: Vec<RawCluster>) -> (made: Result<Vec<Cluster>, Error>)
    ensures
        match made {
            Ok(rows) => all_translate(g@, raw@) && models(rows@) == raw_models(g@, raw@),
            Err(e) => e == Error::UntranslatableNodeReference && !all_translate(g@, raw@),
        },
{
    let mut rows: Vec<Cluster> = Vec::new();
    let ghost all = raw@;
    for one in it: raw
        invariant
            it.seq() == all,
            rows@.len() == it.index(),
            forall|k: int| 0 <= k < it.index() ==> g@.list_translates((#[trigger] all[k]).ids),
            forall|k: int| 0 <= k < it.index() ==> (#[trigger] rows@[k])@ == raw_model(g@, all[k]),
    {
        let ghost i = it.index() as int;
        let RawCluster { label, ids } = one;
        let nodes = match &ids {
            Some(list) => {
                match translate_ids(g, list) {
                    Ok(nodes) => nodes,
                    Err(e) => {
                        proof {
                            assert(!g@.list_translates(all[i].ids));
                        }
                        return Err(e);
                    },
                }
            },
            None => roaring::RoaringBitmap::new(),
        };
        rows.push(Cluster { label, nodes, stats: None });
    }
    proof {
        assert(models(rows@) =~= raw_models(g@, all));
    }
    Ok(rows)
}

/// Every member of a cluster that stays, or that the policy makes up, is a
/// node of the graph when the members of the clusters that came were.
proof fn lemma_postprocessed_in_range(n: nat, rows: Seq<ClusterModel>, mode: SingletonMode)
    requires
        n <= u32::MAX,
        forall|i: int, x: u32| 0 <= i < rows.len() && #[trigger] rows[i].members.contains(x) ==> x < n,
    ensures
        forall|i: int, x: u32|
            0 <= i < postprocessed(n, rows, mode).len() && #[trigger] postprocessed(
                n,
                rows,
                mode,
            )[i].members.contains(x) ==> x < n,
{
    let kept = rows.filter(large_enough(size_floor(mode)));
    let out = postprocessed(n, rows, mode);
    lemma_synthesized(crate::cluster::cover(kept), n);
    assert forall|i: int, x: u32| 0 <= i < out.len() && #[trigger] out[i].members.contains(
        x,
    ) implies x < n by {
        if i < kept.len() {
            assert(out[i] == kept[i]);
            assert(kept.contains(kept[i]));
            rows.lemma_filter_contains_rev(large_enough(size_floor(mode)), kept[i]);
            let k = choose|k: int| 0 <= k < rows.len() && rows[k] == kept[i];
            assert(rows[k].members.contains(x));
        } else {
            let extra = synthesized(crate::cluster::cover(kept), n);
            let j = i - kept.len();
            assert(out[i] == extra[j]);
            let u = choose|u: u32|
                u < n && !crate::cluster::cover(kept).contains(u) && #[trigger] extra[j]
                    == crate::singleton::lone_cluster(u);
        }
    }
}

/// Builds the table of the clusters `raw` of the graph `g`: the lists of
/// external ids are translated into node sets, the singleton policy `mode`
/// is applied, and the statistics of every cluster are computed.
pub fn read_json(g: &Graph, raw: Vec<RawCluster>, mode: SingletonMode) -> (table: Result<
    ClusterTable,
    Error,
>)
    ensures
        match table {
            Ok(t) => all_translate(g@, raw@) && populated_from(
                g@,
                t@,
                postprocessed(g@.n(), raw_models(g@, raw@), mode),
            ),
            Err(e) => e == Error::UntranslatableNodeReference && !all_translate(g@, raw@),
        },
{
    let rows = match translate_all(g, raw) {
        Ok(rows) => rows,
        Err(e) => {
            return Err(e);
        },
    };
    let mut df = postprocess_singleton_mode(g, ClusterTable::new(rows), mode);
    proof {
        use_type_invariant(g);
        g.lemma_valid();
        let base = raw_models(g@, raw@);
        assert forall|i: int, x: u32|
            0 <= i < base.len() && #[trigger] base[i].members.contains(x) implies x < g@.n() by {}
        lemma_postprocessed_in_range(g@.n(), base, mode);
    }
    let ghost before = df@;
    match populate_clusdf(g, &mut df) {
        Ok(_) => Ok(df),
        Err(e) => {
            proof {
                let i = choose|i: int|
                    0 <= i < before.len() && !g@.covers((#[trigger] before[i]).members);
                let x = choose|x: u32| before[i].members.contains(x) && !(x < g@.n());
                assert(before[i].members.contains(x));
            }
            Err(e)
        },
    }
}

/// The raw clusters with a list of at least `floor` ids, in their order.
fn keep_long(raw: Vec<RawCluster>, floor: usize) -> (kept: Vec<RawCluster>)
    ensures
        kept@ == raw@.filter(long_enough(floor as nat)),
{
    let mut kept: Vec<RawCluster> = Vec::new();
    let ghost all = raw@;
    let ghost test = long_enough(floor as nat);
    proof {
        reveal(Seq::filter);
        assert(all.take(0) == Seq::<RawCluster>::empty());
    }
    for one in it: raw
        invariant
            it.seq() == all,
            test == long_enough(floor as nat),
            kept@ == all.take(it.index() as int).filter(test),
    {
        let ghost i = it.index() as int;
        proof {
            reveal(Seq::filter);
            assert(all.take(i + 1).drop_last() == all.take(i));
            assert(all.take(i + 1).last() == one);
        }
        let long = match &one.ids {
            Some(ids) => ids.len() >= floor,
            None => false,
        };
        if long {
            kept.push(one);
        }
    }
    proof {
        assert(all.take(all.len() as int) == all);
    }
    kept
}

/// Builds the table of the clusters `groups`, each the label of a cluster
/// with the external ids listed under it in a membership list. Groups whose
/// list is missing, or shorter than the least size that `mode` lets stay, are
/// dropped before anything is translated; the rest is treated as by
/// [`read_json`].
pub fn read_membership_series(g: &Graph, groups: Vec<RawCluster>, mode: SingletonMode) -> (table:
    Result<ClusterTable, Error>)
    ensures
        ({
            let raw = groups@.filter(long_enough(size_floor(mode)));
            match table {
                Ok(t) => all_translate(g@, raw) && populated_from(
                    g@,
                    t@,
                    postprocessed(g@.n(), raw_models(g@, raw), mode),
                ),
                Err(e) => e == Error::UntranslatableNodeReference && !all_translate(g@, raw),
            }
        }),
{
    let floor: usize = match mode {
        SingletonMode::AsIs => 0,
        _ => 2,
    };
    let raw = keep_long(groups, floor);
    read_json(g, raw, mode)
}

} // verus!
