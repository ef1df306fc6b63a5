use belinda::cluster::duplicate_label;
use belinda::cluster::Cluster;
use belinda::cluster::ClusterTable;
use belinda::cluster::Label;
use belinda::error::Error;
use belinda::graph::Graph;
use belinda::lookup::rust_nodeset_to_list;

fn path_graph() -> Graph {
    Graph::new(
        vec![vec![1], vec![0, 2], vec![1, 3], vec![2]],
        vec![10, 11, 12, 13],
    )
    .unwrap()
}

fn cluster(label: Option<Label>, ids: &[u32]) -> Cluster {
    Cluster { label, nodes: ids.iter().copied().collect(), stats: None }
}

#[test]
fn node_table_lists_names_and_degrees() {
    let t = path_graph().nodes(None, false).unwrap();
    assert_eq!(t.node, vec![10, 11, 12, 13]);
    assert_eq!(t.degree, vec![1, 2, 2, 1]);
    assert!(t.adj.is_none());
    assert!(t.labels.is_none());
}

#[test]
fn verbose_node_table_lists_neighbors_by_name() {
    let t = path_graph().nodes(None, true).unwrap();
    assert_eq!(t.adj, Some(vec![vec![11], vec![10, 12], vec![11, 13], vec![12]]));
}

#[test]
fn node_table_lists_the_labels_of_each_node() {
    let clus = ClusterTable::new(vec![
        cluster(Some(Label::Int(7)), &[0, 1]),
        cluster(None, &[1, 2]),
        cluster(Some(Label::Str("x".to_string())), &[1]),
    ]);
    let t = path_graph().nodes(Some(&clus), false).unwrap();
    assert_eq!(
        t.labels,
        Some(vec![
            vec![Some(Label::Int(7))],
            vec![Some(Label::Int(7)), None, Some(Label::Str("x".to_string()))],
            vec![None],
            vec![],
        ])
    );
}

#[test]
fn node_table_refuses_clusters_outside_the_graph() {
    let clus = ClusterTable::new(vec![cluster(None, &[0]), cluster(None, &[1, 4])]);
    assert_eq!(path_graph().nodes(Some(&clus), true).err(), Some(Error::InvalidNodeId));
}

#[test]
fn node_sets_are_written_in_external_ids() {
    let g = path_graph();
    let sets = vec![[3u32, 0].into_iter().collect(), roaring::RoaringBitmap::new()];
    assert_eq!(rust_nodeset_to_list(&g, &sets), Ok(vec![vec![10, 13], vec![]]));
    let sets = vec![[4u32].into_iter().collect()];
    assert_eq!(rust_nodeset_to_list(&g, &sets), Err(Error::InvalidNodeId));
}

#[test]
fn labels_are_copied_whole() {
    let text = Label::Str("alpha".to_string());
    assert_eq!(text.duplicate(), Label::Str("alpha".to_string()));
    assert_eq!(Label::Int(3).duplicate(), Label::Int(3));
    assert_eq!(duplicate_label(&None), None);
    assert_eq!(duplicate_label(&Some(Label::Int(9))), Some(Label::Int(9)));
}

#[test]
fn multiplicities_count_the_clusters_of_each_node() {
    let clus = ClusterTable::new(vec![
        cluster(Some(Label::Int(7)), &[0, 1]),
        cluster(None, &[1, 2]),
        cluster(None, &[1]),
    ]);
    let t = path_graph().nodes(Some(&clus), false).unwrap();
    assert_eq!(t.multiplicities(), Some(vec![1, 3, 1, 0]));
    assert_eq!(path_graph().nodes(None, false).unwrap().multiplicities(), None);
}

#[test]
fn singleton_flags_mark_clusters_of_one() {
    let clus = ClusterTable::new(vec![cluster(None, &[0, 1]), cluster(None, &[2]), cluster(None, &[])]);
    assert_eq!(clus.singletons(), vec![false, true, false]);
    assert!(clus.has_singletons());
    assert!(!ClusterTable::new(vec![cluster(None, &[0, 1])]).has_singletons());
}
