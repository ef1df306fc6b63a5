use belinda::error::Error;
use belinda::sets::rust_bitmap_union;
use belinda::sets::rust_popcnt;
use belinda::sets::CompressedSet;
use roaring::RoaringBitmap;
use roaring::RoaringTreemap;

fn small(ids: &[u32]) -> CompressedSet {
    CompressedSet::Small(ids.iter().copied().collect::<RoaringBitmap>())
}

fn big(ids: &[u64]) -> CompressedSet {
    CompressedSet::Big(ids.iter().copied().collect::<RoaringTreemap>())
}

#[test]
fn popcnt_counts_each_set() {
    let sets = vec![small(&[1, 2, 3]), big(&[5, 1 << 40]), small(&[]), big(&[])];
    assert_eq!(rust_popcnt(&sets), vec![Some(3), Some(2), Some(0), Some(0)]);
}

#[test]
fn sets_answer_membership() {
    assert!(small(&[4, 9]).contains(9));
    assert!(!small(&[4, 9]).contains(5));
    assert!(!small(&[4, 9]).contains((1 << 32) + 4));
    assert!(big(&[1 << 35]).contains(1 << 35));
    assert!(!big(&[1 << 35]).contains(35));
}

#[test]
fn sets_list_their_ids_ascending() {
    assert_eq!(small(&[9, 4, 7]).to_vec(), vec![4, 7, 9]);
    assert_eq!(big(&[1 << 33, 2, 1 << 32]).to_vec(), vec![2, 1 << 32, 1 << 33]);
    assert_eq!(small(&[u32::MAX]).to_vec(), vec![u32::MAX as u64]);
}

#[test]
fn union_of_small_sets_is_small() {
    let all = rust_bitmap_union(&vec![small(&[1, 2]), small(&[2, 3]), small(&[])]);
    assert!(matches!(all, CompressedSet::Small(_)));
    assert_eq!(all.to_vec(), vec![1, 2, 3]);
    assert_eq!(all.len(), Some(3));
}

#[test]
fn union_with_a_big_set_is_big() {
    let all = rust_bitmap_union(&vec![small(&[1, 2]), big(&[2, 1 << 40]), small(&[7])]);
    assert!(matches!(all, CompressedSet::Big(_)));
    assert_eq!(all.to_vec(), vec![1, 2, 7, 1 << 40]);
    let all = CompressedSet::union_all(&vec![big(&[3]), big(&[3, 4])]);
    assert_eq!(all.to_vec(), vec![3, 4]);
}

#[test]
fn union_of_nothing_is_empty() {
    let all = rust_bitmap_union(&vec![]);
    assert!(matches!(all, CompressedSet::Small(_)));
    assert_eq!(all.len(), Some(0));
}

#[test]
fn sets_are_made_from_ascending_lists_only() {
    let made = CompressedSet::small_from_sorted(&vec![1, 4, 9]).unwrap();
    assert!(matches!(made, CompressedSet::Small(_)));
    assert_eq!(made.to_vec(), vec![1, 4, 9]);
    let made = CompressedSet::big_from_sorted(&vec![0, 1 << 40]).unwrap();
    assert!(matches!(made, CompressedSet::Big(_)));
    assert_eq!(made.to_vec(), vec![0, 1 << 40]);
    assert_eq!(CompressedSet::small_from_sorted(&vec![]).unwrap().len(), Some(0));
    assert_eq!(CompressedSet::small_from_sorted(&vec![4, 1]).err(), Some(Error::MalformedSet));
    assert_eq!(CompressedSet::small_from_sorted(&vec![4, 4]).err(), Some(Error::MalformedSet));
    assert_eq!(CompressedSet::big_from_sorted(&vec![2, 1]).err(), Some(Error::MalformedSet));
}

#[test]
fn sets_count_what_they_have_in_common() {
    assert_eq!(small(&[1, 2, 3]).intersection_len(&small(&[2, 3, 4])), Some(2));
    assert_eq!(small(&[1, 2, 3]).intersection_len(&big(&[3, 1 << 40])), Some(1));
    assert_eq!(big(&[3, 1 << 40]).intersection_len(&small(&[1, 2, 3])), Some(1));
    assert_eq!(big(&[5, 1 << 40]).intersection_len(&big(&[1 << 40, 7])), Some(1));
    assert_eq!(small(&[]).intersection_len(&big(&[1])), Some(0));
}
