use belinda::components::CCLabels;
use belinda::components::CacheAction;
use belinda::components::Cached;
use belinda::components::ComponentLabelCache;
use belinda::error::Error;
use belinda::graph::Graph;
use belinda::lookup::rust_label_cc;
use belinda::lookup::rust_label_cc_size;

fn two_components() -> Graph {
    // 0 - 1 - 2 and 3 - 4
    Graph::new(
        vec![vec![1], vec![0, 2], vec![1], vec![4], vec![3]],
        vec![10, 11, 12, 13, 14],
    )
    .unwrap()
}

fn labels() -> CCLabels {
    CCLabels { labels: vec![0, 0, 0, 1, 1], num_nodes: vec![3, 2] }
}

#[test]
fn cache_asks_for_the_oracle_once() {
    let mut cache = ComponentLabelCache::new();
    assert_eq!(cache.oracle_calls(), 0);
    assert_eq!(cache.get(), Cached::Pending);
    assert_eq!(cache.request(), CacheAction::Compute);
    assert_eq!(cache.request(), CacheAction::Wait);
    assert_eq!(cache.get(), Cached::Pending);
    cache.complete(Ok(labels()));
    assert_eq!(cache.request(), CacheAction::Read);
    assert_eq!(cache.request(), CacheAction::Read);
    assert_eq!(cache.oracle_calls(), 1);
}

#[test]
fn cache_returns_the_same_labels_twice() {
    let mut cache = ComponentLabelCache::new();
    cache.request();
    cache.complete(Ok(labels()));
    let first = cache.get() == Cached::Ready(&labels());
    cache.request();
    cache.complete(Ok(CCLabels { labels: vec![], num_nodes: vec![] }));
    let second = cache.get() == Cached::Ready(&labels());
    assert!(first && second);
    assert_eq!(cache.oracle_calls(), 1);
}

#[test]
fn cache_replays_a_failure() {
    let mut cache = ComponentLabelCache::new();
    cache.request();
    cache.complete(Err(Error::DegenerateGraph));
    assert_eq!(cache.get(), Cached::Failed(Error::DegenerateGraph));
    assert_eq!(cache.request(), CacheAction::Read);
    cache.complete(Ok(labels()));
    assert_eq!(cache.get(), Cached::Failed(Error::DegenerateGraph));
    assert_eq!(cache.oracle_calls(), 1);
}

#[test]
fn cache_takes_no_answer_that_nobody_asked_for() {
    let mut cache = ComponentLabelCache::new();
    cache.complete(Ok(labels()));
    assert_eq!(cache.get(), Cached::Pending);
    assert_eq!(cache.request(), CacheAction::Compute);
}

#[test]
fn graph_keeps_component_labels() {
    let mut g = two_components();
    assert_eq!(g.get_cc_labels(), Cached::Pending);
    assert_eq!(g.num_components(), Cached::Pending);
    assert_eq!(g.request_cc_labels(), CacheAction::Compute);
    g.complete_cc_labels(Ok(labels()));
    assert_eq!(g.get_cc_labels(), Cached::Ready(&labels()));
    assert_eq!(g.request_cc_labels(), CacheAction::Read);
    assert_eq!(g.num_components(), Cached::Ready(2));
    assert_eq!(g.largest_component(), Cached::Ready(3));
    assert_eq!(g.oracle_calls(), 1);
    assert_eq!(g.n(), 5);
}

#[test]
fn graph_keeps_ill_fitting_labels_as_a_failure() {
    let mut g = two_components();
    g.request_cc_labels();
    g.complete_cc_labels(Ok(CCLabels { labels: vec![0, 0, 0], num_nodes: vec![3] }));
    assert_eq!(g.get_cc_labels(), Cached::Failed(Error::InconsistentGraph));
    let mut g = two_components();
    g.request_cc_labels();
    g.complete_cc_labels(Ok(CCLabels { labels: vec![0, 0, 0, 1, 2], num_nodes: vec![3, 2] }));
    assert_eq!(g.num_components(), Cached::Failed(Error::InconsistentGraph));
}

#[test]
fn graph_without_nodes_has_no_largest_component() {
    let mut g = Graph::new(vec![], vec![]).unwrap();
    g.request_cc_labels();
    g.complete_cc_labels(Ok(CCLabels { labels: vec![], num_nodes: vec![] }));
    assert_eq!(g.num_components(), Cached::Ready(0));
    assert_eq!(g.largest_component(), Cached::Failed(Error::DegenerateGraph));
}

#[test]
fn component_labels_by_external_id() {
    let mut g = two_components();
    let ids = vec![Some(14), None, Some(10), Some(12)];
    assert_eq!(rust_label_cc(&g, &ids), Cached::Pending);
    g.request_cc_labels();
    g.complete_cc_labels(Ok(labels()));
    assert_eq!(rust_label_cc(&g, &ids), Cached::Ready(vec![Some(1), None, Some(0), Some(0)]));
    assert_eq!(
        rust_label_cc(&g, &vec![Some(10), Some(99)]),
        Cached::Failed(Error::UntranslatableNodeReference)
    );
}

#[test]
fn component_sizes_by_component() {
    let mut g = two_components();
    g.request_cc_labels();
    g.complete_cc_labels(Ok(labels()));
    assert_eq!(
        rust_label_cc_size(&g, &vec![Some(1), Some(0), None]),
        Cached::Ready(vec![Some(2), Some(3), None])
    );
    assert_eq!(rust_label_cc_size(&g, &vec![Some(2)]), Cached::Failed(Error::InvalidNodeId));
}

#[test]
fn component_lookups_replay_the_failure_of_the_oracle() {
    let mut g = two_components();
    g.request_cc_labels();
    g.complete_cc_labels(Err(Error::MalformedSet));
    assert_eq!(rust_label_cc(&g, &vec![Some(10)]), Cached::Failed(Error::MalformedSet));
    assert_eq!(rust_label_cc_size(&g, &vec![]), Cached::Failed(Error::MalformedSet));
    assert_eq!(g.largest_component(), Cached::Failed(Error::MalformedSet));
}

#[test]
fn labels_fit_a_graph_of_their_length() {
    assert!(labels().is_fit(5));
    assert!(!labels().is_fit(4));
    assert!(!CCLabels { labels: vec![1], num_nodes: vec![1] }.is_fit(1));
    assert_eq!(labels().num_components(), 2);
    assert_eq!(labels().largest_component(), Some(3));
    assert_eq!(CCLabels { labels: vec![], num_nodes: vec![] }.largest_component(), None);
}
