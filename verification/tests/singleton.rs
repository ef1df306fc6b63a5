use belinda::cluster::Cluster;
use belinda::cluster::ClusterTable;
use belinda::cluster::Label;
use belinda::graph::Graph;
use belinda::singleton::keep_mask;
use belinda::singleton::postprocess_singleton_mode;
use belinda::singleton::SingletonMode;
use roaring::RoaringBitmap;

fn path_graph() -> Graph {
    Graph::new(
        vec![vec![1], vec![0, 2], vec![1, 3], vec![2]],
        vec![10, 11, 12, 13],
    )
    .unwrap()
}

fn cluster(label: u32, ids: &[u32]) -> Cluster {
    Cluster { label: Some(Label::Int(label)), nodes: ids.iter().copied().collect(), stats: None }
}

fn table() -> ClusterTable {
    ClusterTable::new(vec![cluster(1, &[0, 1]), cluster(2, &[2]), cluster(3, &[]), cluster(4, &[1, 0])])
}

fn shape(t: &ClusterTable) -> Vec<(Option<u32>, Vec<u32>)> {
    t.rows
        .iter()
        .map(|c| {
            let label = match &c.label {
                Some(Label::Int(x)) => Some(*x),
                _ => None,
            };
            (label, c.nodes.iter().collect())
        })
        .collect()
}

#[test]
fn as_is_keeps_every_cluster() {
    let out = postprocess_singleton_mode(&path_graph(), table(), SingletonMode::AsIs);
    assert_eq!(
        shape(&out),
        vec![(Some(1), vec![0, 1]), (Some(2), vec![2]), (Some(3), vec![]), (Some(4), vec![0, 1])]
    );
}

#[test]
fn ignore_drops_clusters_of_fewer_than_two() {
    let out = postprocess_singleton_mode(&path_graph(), table(), SingletonMode::Ignore);
    assert_eq!(shape(&out), vec![(Some(1), vec![0, 1]), (Some(4), vec![0, 1])]);
    assert!(out.rows.iter().all(|c| c.nodes.len() >= 2));
}

#[test]
fn auto_populate_gives_each_uncovered_node_a_cluster() {
    let out = postprocess_singleton_mode(&path_graph(), table(), SingletonMode::AutoPopulate);
    assert_eq!(
        shape(&out),
        vec![(Some(1), vec![0, 1]), (Some(4), vec![0, 1]), (None, vec![2]), (None, vec![3])]
    );
    assert!(out.rows[2].label.is_none() && out.rows[2].stats.is_none());
    let mut covered = RoaringBitmap::new();
    for c in out.rows.iter() {
        covered |= &c.nodes;
    }
    assert_eq!(covered.iter().collect::<Vec<u32>>(), vec![0, 1, 2, 3]);
}

#[test]
fn auto_populate_of_nothing_is_all_singletons() {
    let out = postprocess_singleton_mode(
        &path_graph(),
        ClusterTable::new(vec![]),
        SingletonMode::AutoPopulate,
    );
    assert_eq!(
        shape(&out),
        vec![(None, vec![0]), (None, vec![1]), (None, vec![2]), (None, vec![3])]
    );
}

#[test]
fn auto_populate_adds_nothing_when_all_is_covered() {
    let all = ClusterTable::new(vec![cluster(1, &[0, 1]), cluster(2, &[2, 3])]);
    let out = postprocess_singleton_mode(&path_graph(), all, SingletonMode::AutoPopulate);
    assert_eq!(shape(&out), vec![(Some(1), vec![0, 1]), (Some(2), vec![2, 3])]);
}

#[test]
fn policy_keeps_string_labels() {
    let t = ClusterTable::new(vec![Cluster {
        label: Some(Label::Str("core".to_string())),
        nodes: [1u32, 2].into_iter().collect(),
        stats: None,
    }]);
    let out = postprocess_singleton_mode(&path_graph(), t, SingletonMode::Ignore);
    assert_eq!(out.rows[0].label, Some(Label::Str("core".to_string())));
}

#[test]
fn keep_mask_marks_the_clusters_that_stay() {
    assert_eq!(keep_mask(&table(), SingletonMode::AsIs), vec![true, true, true, true]);
    assert_eq!(keep_mask(&table(), SingletonMode::Ignore), vec![true, false, false, true]);
    assert_eq!(keep_mask(&table(), SingletonMode::AutoPopulate), vec![true, false, false, true]);
}
