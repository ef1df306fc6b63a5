use belinda::cluster::Cluster;
use belinda::cluster::ClusterTable;
use belinda::error::Error;
use belinda::graph::Graph;
use belinda::populate::populate_clusdf;
use belinda::quality::covered_num_nodes_from_sizes;
use belinda::quality::ClusDataFrame;
use belinda::quality::CpmTerms;
use belinda::quality::ModularityTerms;
use belinda::stats::ClusterStats;

fn path_graph() -> Graph {
    Graph::new(
        vec![vec![1], vec![0, 2], vec![1, 3], vec![2]],
        vec![10, 11, 12, 13],
    )
    .unwrap()
}

fn cluster(ids: &[u32]) -> Cluster {
    Cluster { label: None, nodes: ids.iter().copied().collect(), stats: None }
}

fn populated(g: &Graph, clusters: Vec<Cluster>) -> ClusterTable {
    let mut t = ClusterTable::new(clusters);
    populate_clusdf(g, &mut t).unwrap();
    t
}

fn modularity(t: &ModularityTerms, resolution: f64) -> f64 {
    let total = t.total_edges as f64;
    t.m as f64 / total - resolution * (t.vol as f64 / (2.0 * total)).powi(2)
}

fn cpm(t: &CpmTerms, resolution: f64) -> f64 {
    let n = t.n as f64;
    t.m as f64 - resolution * n * (n - 1.0) / 2.0
}

#[test]
fn modularity_of_the_path_cluster() {
    let g = path_graph();
    let t = populated(&g, vec![cluster(&[0, 1])]);
    let terms = t.modularity_terms(&g).unwrap();
    assert_eq!(terms, vec![ModularityTerms { m: 1, vol: 3, total_edges: 3 }]);
    let score = modularity(&terms[0], 1.0);
    assert!((score - (1.0 / 3.0 - 0.25)).abs() < 1e-9);
    assert!((score - 0.0833333333).abs() < 1e-9);
}

#[test]
fn modularity_terms_come_per_cluster() {
    let g = path_graph();
    let t = populated(&g, vec![cluster(&[0, 1]), cluster(&[2, 3])]);
    let terms = t.modularity_terms(&g).unwrap();
    assert_eq!(
        terms,
        vec![
            ModularityTerms { m: 1, vol: 3, total_edges: 3 },
            ModularityTerms { m: 1, vol: 3, total_edges: 3 },
        ]
    );
    let whole: f64 = terms.iter().map(|t| modularity(t, 1.0)).sum();
    assert!((whole - (2.0 / 3.0 - 0.5)).abs() < 1e-9);
}

#[test]
fn modularity_is_refused_without_edges() {
    let g = Graph::new(vec![vec![], vec![]], vec![1, 2]).unwrap();
    let t = populated(&g, vec![cluster(&[0, 1])]);
    assert_eq!(t.modularity_terms(&g), Err(Error::DegenerateGraph));
}

#[test]
fn modularity_is_refused_without_statistics() {
    let g = path_graph();
    let t = ClusterTable::new(vec![cluster(&[0, 1])]);
    assert_eq!(t.modularity_terms(&g), Err(Error::MissingStatistics));
}

#[test]
fn cpm_of_the_path_clusters() {
    let g = path_graph();
    let t = populated(&g, vec![cluster(&[0, 1]), cluster(&[0, 1, 2, 3])]);
    let terms = t.cpm_terms().unwrap();
    assert_eq!(terms, vec![CpmTerms { m: 1, n: 2 }, CpmTerms { m: 3, n: 4 }]);
    assert!((cpm(&terms[0], 0.5) - 0.5).abs() < 1e-9);
    assert!((cpm(&terms[1], 0.5) - 0.0).abs() < 1e-9);
}

#[test]
fn cpm_of_a_cluster_without_nodes() {
    let g = path_graph();
    let t = populated(&g, vec![cluster(&[0, 1]), cluster(&[])]);
    let terms = t.cpm_terms().unwrap();
    assert_eq!(terms, vec![CpmTerms { m: 1, n: 2 }, CpmTerms { m: 0, n: 0 }]);
    assert!((cpm(&terms[1], 0.5) - 0.0).abs() < 1e-9);
}

#[test]
fn cpm_is_refused_without_statistics() {
    let g = path_graph();
    let mut t = populated(&g, vec![cluster(&[]), cluster(&[0, 1])]);
    t.rows[1].stats = None;
    assert_eq!(t.cpm_terms(), Err(Error::MissingStatistics));
}

#[test]
fn modularity_takes_the_volume_from_the_counts() {
    let g = path_graph();
    let mut t = ClusterTable::new(vec![cluster(&[0, 1])]);
    t.rows[0].stats = Some(ClusterStats { n: 2, m: 5, c: 7, mcd: 1 });
    assert_eq!(
        t.modularity_terms(&g),
        Ok(vec![ModularityTerms { m: 5, vol: 17, total_edges: 3 }])
    );
}

#[test]
fn covered_nodes_are_counted_once_each() {
    let g = path_graph();
    // the clusters overlap in node 1
    let t = populated(&g, vec![cluster(&[0, 1]), cluster(&[1, 2])]);
    assert_eq!(t.covered_num_nodes(), 3);
    let twice = populated(&g, vec![cluster(&[0]), cluster(&[0])]);
    assert_eq!(twice.covered_num_nodes(), 1);
}

#[test]
fn covered_nodes_need_no_statistics() {
    let t = ClusterTable::new(vec![cluster(&[0, 1]), cluster(&[3]), cluster(&[3])]);
    assert_eq!(t.covered_num_nodes(), 3);
    assert_eq!(ClusterTable::new(vec![]).covered_num_nodes(), 0);
}

#[test]
fn sizes_alone_give_their_sum() {
    assert_eq!(covered_num_nodes_from_sizes(&vec![2, 2]), 4);
    assert_eq!(covered_num_nodes_from_sizes(&vec![]), 0);
    assert_eq!(covered_num_nodes_from_sizes(&vec![u64::MAX, u64::MAX]), 2 * (u64::MAX as u128));
    // for clusters that do not overlap the sum is the count
    let g = path_graph();
    let t = populated(&g, vec![cluster(&[0, 1]), cluster(&[2])]);
    let sizes: Vec<u64> = t.rows.iter().map(|c| c.stats.unwrap().n).collect();
    assert_eq!(covered_num_nodes_from_sizes(&sizes), t.covered_num_nodes() as u128);
}

#[test]
fn cover_is_the_union_of_the_members() {
    let t = ClusterTable::new(vec![cluster(&[0, 5]), cluster(&[5, 9]), cluster(&[])]);
    assert_eq!(t.cover().iter().collect::<Vec<u32>>(), vec![0, 5, 9]);
    assert_eq!(t.len(), 3);
}
