use belinda::error::Error;
use belinda::graph::Graph;
use belinda::stats::cluster_stats;
use belinda::stats::ClusterStats;
use roaring::RoaringBitmap;

fn path_graph() -> Graph {
    Graph::new(
        vec![vec![1], vec![0, 2], vec![1, 3], vec![2]],
        vec![10, 11, 12, 13],
    )
    .unwrap()
}

fn set(ids: &[u32]) -> RoaringBitmap {
    ids.iter().copied().collect()
}

#[test]
fn path_graph_cluster_of_two() {
    let g = path_graph();
    let stats = cluster_stats(&g, &set(&[0, 1])).unwrap();
    assert_eq!(stats, ClusterStats { n: 2, m: 1, c: 1, mcd: 1 });
    assert_eq!(stats.vol(), 3);
}

#[test]
fn path_graph_whole_cluster() {
    let g = path_graph();
    let stats = cluster_stats(&g, &set(&[0, 1, 2, 3])).unwrap();
    assert_eq!(stats, ClusterStats { n: 4, m: 3, c: 0, mcd: 1 });
    assert_eq!(stats.vol(), 6);
}

#[test]
fn empty_cluster_has_zero_statistics() {
    let g = path_graph();
    let stats = cluster_stats(&g, &set(&[])).unwrap();
    assert_eq!(stats, ClusterStats { n: 0, m: 0, c: 0, mcd: 0 });
    assert_eq!(stats.vol(), 0);
}

#[test]
fn singleton_cluster_has_zero_mcd() {
    let g = path_graph();
    let stats = cluster_stats(&g, &set(&[1])).unwrap();
    assert_eq!(stats, ClusterStats { n: 1, m: 0, c: 2, mcd: 0 });
}

#[test]
fn cluster_without_internal_edges_has_zero_mcd() {
    let g = path_graph();
    let stats = cluster_stats(&g, &set(&[0, 2])).unwrap();
    assert_eq!(stats, ClusterStats { n: 2, m: 0, c: 3, mcd: 0 });
}

#[test]
fn mcd_is_zero_when_one_member_is_isolated_in_the_cluster() {
    let g = path_graph();
    // 0 - 1 is inside, 3 has no neighbour inside
    let stats = cluster_stats(&g, &set(&[0, 1, 3])).unwrap();
    assert_eq!(stats, ClusterStats { n: 3, m: 1, c: 2, mcd: 0 });
}

#[test]
fn mcd_is_the_least_intra_degree() {
    // 0 - 1 - 2 - 0 and 2 - 3, 3 - 4
    let g = Graph::new(
        vec![vec![1, 2], vec![0, 2], vec![0, 1, 3], vec![2, 4], vec![3]],
        vec![0, 1, 2, 3, 4],
    )
    .unwrap();
    let stats = cluster_stats(&g, &set(&[0, 1, 2])).unwrap();
    assert_eq!(stats, ClusterStats { n: 3, m: 3, c: 1, mcd: 2 });
    let stats = cluster_stats(&g, &set(&[0, 1, 2, 3])).unwrap();
    assert_eq!(stats, ClusterStats { n: 4, m: 4, c: 1, mcd: 1 });
}

#[test]
fn volume_is_twice_internal_plus_cut() {
    let g = path_graph();
    for ids in [vec![], vec![0], vec![1, 2], vec![0, 3], vec![0, 1, 2], vec![0, 1, 2, 3]] {
        let stats = cluster_stats(&g, &set(&ids)).unwrap();
        assert_eq!(stats.vol(), 2 * stats.m as u128 + stats.c as u128);
        let degrees: u128 = ids.iter().map(|u| g.degree(*u) as u128).sum();
        assert_eq!(stats.vol(), degrees);
    }
}

#[test]
fn clusters_that_cover_the_graph_reconcile_with_its_edges() {
    let g = path_graph();
    let a = cluster_stats(&g, &set(&[0, 1])).unwrap();
    let b = cluster_stats(&g, &set(&[2])).unwrap();
    let c = cluster_stats(&g, &set(&[3])).unwrap();
    assert_eq!(a.m + b.m + c.m + (a.c + b.c + c.c) / 2, g.m());
}

#[test]
fn member_outside_graph_is_refused() {
    let g = path_graph();
    assert_eq!(cluster_stats(&g, &set(&[0, 4])), Err(Error::InvalidNodeId));
}

#[test]
fn volume_of_any_counts_is_twice_internal_plus_cut() {
    let stats = ClusterStats { n: 1, m: u64::MAX, c: u64::MAX, mcd: 0 };
    assert_eq!(stats.vol(), 3 * (u64::MAX as u128));
}
