use belinda::codec::node_list_to_bitmaps;
use belinda::codec::translate_ids;
use belinda::error::Error;
use belinda::graph::Graph;

fn path_graph() -> Graph {
    Graph::new(
        vec![vec![1], vec![0, 2], vec![1, 3], vec![2]],
        vec![10, 11, 12, 13],
    )
    .unwrap()
}

fn members(set: &roaring::RoaringBitmap) -> Vec<u32> {
    set.iter().collect()
}

#[test]
fn translate_ids_maps_external_to_internal() {
    let g = path_graph();
    let set = translate_ids(&g, &vec![13, 10, 12]).unwrap();
    assert_eq!(members(&set), vec![0, 2, 3]);
}

#[test]
fn translate_ids_counts_repeated_ids_once() {
    let g = path_graph();
    let set = translate_ids(&g, &vec![11, 11, 10, 11]).unwrap();
    assert_eq!(members(&set), vec![0, 1]);
}

#[test]
fn translate_ids_passes_over_one_unknown_id() {
    let g = path_graph();
    assert_eq!(members(&translate_ids(&g, &vec![99]).unwrap()), Vec::<u32>::new());
    assert_eq!(members(&translate_ids(&g, &vec![10, 99, 11]).unwrap()), vec![0, 1]);
}

#[test]
fn translate_ids_refuses_second_unknown_id() {
    let g = path_graph();
    assert_eq!(
        translate_ids(&g, &vec![10, 98, 11, 99]).err(),
        Some(Error::UntranslatableNodeReference)
    );
    // the same unknown id twice counts twice
    assert_eq!(translate_ids(&g, &vec![99, 99]).err(), Some(Error::UntranslatableNodeReference));
}

#[test]
fn node_lists_translate_in_order() {
    let g = path_graph();
    let sets =
        node_list_to_bitmaps(&g, &vec![Some(vec![12, 13]), None, Some(vec![]), Some(vec![10, 77])])
            .unwrap();
    let listed: Vec<Vec<u32>> = sets.iter().map(members).collect();
    assert_eq!(listed, vec![vec![2, 3], vec![], vec![], vec![0]]);
}

#[test]
fn node_lists_fail_when_one_list_fails() {
    let g = path_graph();
    let made = node_list_to_bitmaps(&g, &vec![Some(vec![10]), Some(vec![1, 2])]);
    assert_eq!(made.err(), Some(Error::UntranslatableNodeReference));
}
