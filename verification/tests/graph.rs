use belinda::error::Error;
use belinda::graph::Graph;

fn triangle_with_tail() -> Graph {
    // 0 - 1 - 2 - 0, and 2 - 3
    Graph::new(
        vec![vec![1, 2], vec![0, 2], vec![0, 1, 3], vec![2]],
        vec![100, 200, 300, 400],
    )
    .unwrap()
}

#[test]
fn graph_counts_nodes_and_edges() {
    let g = triangle_with_tail();
    assert_eq!(g.n(), 4);
    assert_eq!(g.m(), 4);
}

#[test]
fn graph_without_nodes_is_accepted() {
    let g = Graph::new(vec![], vec![]).unwrap();
    assert_eq!(g.n(), 0);
    assert_eq!(g.m(), 0);
}

#[test]
fn graph_degrees_and_neighbors() {
    let g = triangle_with_tail();
    assert_eq!(g.degree(0), 2);
    assert_eq!(g.degree(2), 3);
    assert_eq!(g.degree(3), 1);
    assert_eq!(g.neighbors(2), &vec![0, 1, 3]);
    assert!(g.neighbor_set(2).contains(3));
    assert!(!g.neighbor_set(3).contains(0));
    assert_eq!(g.neighbor_set(2).len(), 3);
}

#[test]
fn graph_edge_offsets_are_prefix_sums() {
    let g = triangle_with_tail();
    // neighbours greater than the node: 0 has {1, 2}, 1 has {2}, 2 has {3}, 3 has none
    assert_eq!(g.offset(0), 0);
    assert_eq!(g.offset(1), 2);
    assert_eq!(g.offset(2), 3);
    assert_eq!(g.offset(3), 4);
    assert_eq!(g.offset(4), 4);
    assert_eq!(g.lower_degree(0), 0);
    assert_eq!(g.lower_degree(2), 2);
    assert_eq!(g.lower_degree(3), 1);
}

#[test]
fn graph_translates_external_ids() {
    let g = triangle_with_tail();
    assert_eq!(g.retrieve(100), Some(0));
    assert_eq!(g.retrieve(400), Some(3));
    assert_eq!(g.retrieve(0), None);
    assert_eq!(g.name(1), 200);
}

#[test]
fn graph_refuses_list_out_of_order() {
    let made = Graph::new(vec![vec![2, 1], vec![0], vec![0]], vec![1, 2, 3]);
    assert_eq!(made.err(), Some(Error::MalformedSet));
}

#[test]
fn graph_refuses_repeated_neighbor() {
    let made = Graph::new(vec![vec![1, 1], vec![0]], vec![1, 2]);
    assert_eq!(made.err(), Some(Error::MalformedSet));
}

#[test]
fn graph_refuses_neighbor_out_of_range() {
    let made = Graph::new(vec![vec![1], vec![0, 2]], vec![1, 2]);
    assert_eq!(made.err(), Some(Error::InvalidNodeId));
}

#[test]
fn graph_refuses_one_sided_listing() {
    let made = Graph::new(vec![vec![1], vec![]], vec![1, 2]);
    assert_eq!(made.err(), Some(Error::InconsistentGraph));
}

#[test]
fn graph_refuses_loop() {
    let made = Graph::new(vec![vec![0]], vec![1]);
    assert_eq!(made.err(), Some(Error::InconsistentGraph));
}

#[test]
fn graph_refuses_wrong_number_of_names() {
    let made = Graph::new(vec![vec![1], vec![0]], vec![1]);
    assert_eq!(made.err(), Some(Error::InconsistentGraph));
}

#[test]
fn graph_refuses_shared_name() {
    let made = Graph::new(vec![vec![1], vec![0]], vec![7, 7]);
    assert_eq!(made.err(), Some(Error::InconsistentGraph));
}

#[test]
fn graph_reports_order_before_range() {
    // the first list is out of order and names a node that is not there
    let made = Graph::new(vec![vec![9, 1], vec![0]], vec![1, 2]);
    assert_eq!(made.err(), Some(Error::MalformedSet));
}
