use belinda::cluster::ClusterTable;
use belinda::cluster::Label;
use belinda::error::Error;
use belinda::graph::Graph;
use belinda::ingest::read_json;
use belinda::ingest::read_membership_series;
use belinda::ingest::RawCluster;
use belinda::populate::populate_clusdf;
use belinda::singleton::SingletonMode;
use belinda::stats::ClusterStats;

fn path_graph() -> Graph {
    Graph::new(
        vec![vec![1], vec![0, 2], vec![1, 3], vec![2]],
        vec![10, 11, 12, 13],
    )
    .unwrap()
}

fn raw(label: u32, ids: &[u32]) -> RawCluster {
    RawCluster { label: Some(Label::Int(label)), ids: Some(ids.to_vec()) }
}

fn shape(t: &ClusterTable) -> Vec<(Option<u32>, Vec<u32>, Option<ClusterStats>)> {
    t.rows
        .iter()
        .map(|c| {
            let label = match &c.label {
                Some(Label::Int(x)) => Some(*x),
                _ => None,
            };
            (label, c.nodes.iter().collect(), c.stats)
        })
        .collect()
}

#[test]
fn read_json_builds_clusters_with_statistics() {
    let g = path_graph();
    let t = read_json(&g, vec![raw(7, &[10, 11]), raw(8, &[10, 11, 12, 13])], SingletonMode::AsIs)
        .unwrap();
    assert_eq!(
        shape(&t),
        vec![
            (Some(7), vec![0, 1], Some(ClusterStats { n: 2, m: 1, c: 1, mcd: 1 })),
            (Some(8), vec![0, 1, 2, 3], Some(ClusterStats { n: 4, m: 3, c: 0, mcd: 1 })),
        ]
    );
}

#[test]
fn read_json_treats_a_missing_list_as_empty() {
    let g = path_graph();
    let t = read_json(&g, vec![RawCluster { label: None, ids: None }], SingletonMode::AsIs).unwrap();
    assert_eq!(
        shape(&t),
        vec![(None, vec![], Some(ClusterStats { n: 0, m: 0, c: 0, mcd: 0 }))]
    );
}

#[test]
fn read_json_auto_populates_after_translation() {
    let g = path_graph();
    // the second cluster shrinks to one node in translation and is dropped
    let t = read_json(&g, vec![raw(1, &[11, 12]), raw(2, &[13, 99])], SingletonMode::AutoPopulate)
        .unwrap();
    assert_eq!(
        shape(&t),
        vec![
            (Some(1), vec![1, 2], Some(ClusterStats { n: 2, m: 1, c: 2, mcd: 1 })),
            (None, vec![0], Some(ClusterStats { n: 1, m: 0, c: 1, mcd: 0 })),
            (None, vec![3], Some(ClusterStats { n: 1, m: 0, c: 1, mcd: 0 })),
        ]
    );
}

#[test]
fn read_json_refuses_two_unknown_ids() {
    let g = path_graph();
    let made = read_json(&g, vec![raw(1, &[10]), raw(2, &[98, 99, 11])], SingletonMode::AsIs);
    assert_eq!(made.err(), Some(Error::UntranslatableNodeReference));
}

#[test]
fn membership_groups_are_filtered_before_translation() {
    let g = path_graph();
    let groups = vec![
        raw(1, &[10, 11]),
        raw(2, &[12]),
        RawCluster { label: Some(Label::Int(3)), ids: None },
        raw(4, &[98, 99]),
    ];
    // the last group would fail in translation, and is met only where lists of two stay
    let made = read_membership_series(&g, groups, SingletonMode::Ignore);
    assert_eq!(made.err(), Some(Error::UntranslatableNodeReference));
    let groups = vec![
        raw(1, &[10, 11]),
        raw(2, &[12]),
        RawCluster { label: Some(Label::Int(3)), ids: None },
        raw(4, &[13, 13]),
    ];
    let t = read_membership_series(&g, groups, SingletonMode::Ignore).unwrap();
    // the list of the last group is long enough, the set it stands for is not
    assert_eq!(
        shape(&t),
        vec![(Some(1), vec![0, 1], Some(ClusterStats { n: 2, m: 1, c: 1, mcd: 1 }))]
    );
}

#[test]
fn membership_groups_as_is_keep_singletons_and_drop_missing_lists() {
    let g = path_graph();
    let groups = vec![
        raw(2, &[12]),
        RawCluster { label: Some(Label::Int(3)), ids: None },
        raw(5, &[]),
    ];
    let t = read_membership_series(&g, groups, SingletonMode::AsIs).unwrap();
    assert_eq!(
        shape(&t),
        vec![
            (Some(2), vec![2], Some(ClusterStats { n: 1, m: 0, c: 2, mcd: 0 })),
            (Some(5), vec![], Some(ClusterStats { n: 0, m: 0, c: 0, mcd: 0 })),
        ]
    );
}

#[test]
fn populate_fills_in_every_row() {
    let g = path_graph();
    let mut t = ClusterTable::new(vec![
        belinda::cluster::Cluster { label: None, nodes: [0u32, 1].into_iter().collect(), stats: None },
        belinda::cluster::Cluster { label: None, nodes: [3u32].into_iter().collect(), stats: None },
    ]);
    assert_eq!(populate_clusdf(&g, &mut t), Ok(()));
    assert_eq!(t.rows[0].stats, Some(ClusterStats { n: 2, m: 1, c: 1, mcd: 1 }));
    assert_eq!(t.rows[1].stats, Some(ClusterStats { n: 1, m: 0, c: 1, mcd: 0 }));
}

#[test]
fn populate_leaves_the_table_alone_on_error() {
    let g = path_graph();
    let mut t = ClusterTable::new(vec![
        belinda::cluster::Cluster { label: None, nodes: [0u32, 1].into_iter().collect(), stats: None },
        belinda::cluster::Cluster { label: None, nodes: [5u32].into_iter().collect(), stats: None },
    ]);
    assert_eq!(populate_clusdf(&g, &mut t), Err(Error::InvalidNodeId));
    assert!(t.rows.iter().all(|c| c.stats.is_none()));
}
