use belinda::edges::edgeset;
use belinda::error::Error;
use belinda::graph::Graph;
use belinda::sets::CompressedSet;
use belinda::stats::cluster_stats;
use roaring::RoaringBitmap;
use roaring::RoaringTreemap;

fn triangle_with_tail() -> Graph {
    // edges by id: (0,1) = 0, (0,2) = 1, (1,2) = 2, (2,3) = 3
    Graph::new(
        vec![vec![1, 2], vec![0, 2], vec![0, 1, 3], vec![2]],
        vec![100, 200, 300, 400],
    )
    .unwrap()
}

fn set(ids: &[u32]) -> RoaringBitmap {
    ids.iter().copied().collect()
}

fn ids_of(edges: &RoaringTreemap) -> Vec<u64> {
    edges.iter().collect()
}

#[test]
fn edgeset_of_all_nodes_is_every_edge_id() {
    let g = triangle_with_tail();
    let edges = edgeset(&g, &set(&[0, 1, 2, 3])).unwrap();
    assert_eq!(ids_of(&edges), vec![0, 1, 2, 3]);
    assert_eq!(edges.len(), g.m());
}

#[test]
fn edgeset_of_a_cluster_is_its_induced_edges() {
    let g = triangle_with_tail();
    assert_eq!(ids_of(&edgeset(&g, &set(&[0, 2])).unwrap()), vec![1]);
    assert_eq!(ids_of(&edgeset(&g, &set(&[1, 2, 3])).unwrap()), vec![2, 3]);
    assert_eq!(ids_of(&edgeset(&g, &set(&[0, 3])).unwrap()), Vec::<u64>::new());
    assert_eq!(ids_of(&edgeset(&g, &set(&[])).unwrap()), Vec::<u64>::new());
}

#[test]
fn edgeset_has_as_many_ids_as_the_cluster_has_internal_edges() {
    let g = triangle_with_tail();
    for ids in [vec![], vec![2], vec![0, 1], vec![0, 1, 2], vec![1, 3], vec![0, 1, 2, 3]] {
        let nodes = set(&ids);
        let stats = cluster_stats(&g, &nodes).unwrap();
        assert_eq!(edgeset(&g, &nodes).unwrap().len(), stats.m);
    }
}

#[test]
fn edgeset_refuses_member_outside_graph() {
    let g = triangle_with_tail();
    assert_eq!(edgeset(&g, &set(&[1, 7])).err(), Some(Error::InvalidNodeId));
}

#[test]
fn covered_edges_projects_each_set() {
    let g = triangle_with_tail();
    let projected = g.covered_edges(&vec![set(&[0, 1]), set(&[2, 3]), set(&[0])]).unwrap();
    let listed: Vec<Vec<u64>> = projected.iter().map(|s| s.to_vec()).collect();
    assert_eq!(listed, vec![vec![0], vec![3], vec![]]);
    assert!(projected.iter().all(|s| matches!(s, CompressedSet::Big(_))));
}

#[test]
fn covered_edges_count_counts_each_edge_once() {
    let g = triangle_with_tail();
    // {0,1,2} induces 0, 1, 2 and {1,2,3} induces 2, 3
    let count = g.covered_edges_count(&vec![set(&[0, 1, 2]), set(&[1, 2, 3])]).unwrap();
    assert_eq!(count, 4);
    assert_eq!(g.covered_edges_count(&vec![set(&[0, 1]), set(&[0, 1])]), Ok(1));
    assert_eq!(g.covered_edges_count(&vec![]), Ok(0));
}

#[test]
fn covered_edges_refuse_member_outside_graph() {
    let g = triangle_with_tail();
    assert_eq!(g.covered_edges(&vec![set(&[0]), set(&[4])]).err(), Some(Error::InvalidNodeId));
    assert_eq!(g.covered_edges_count(&vec![set(&[9])]), Err(Error::InvalidNodeId));
}
