use indxvec::mergesort::{merge_indexed, sortidx};
use indxvec::sets::{
    diff, diff_indexed, intersect, intersect_indexed, merge, partition, partition_indexed,
    sansrepeat, unite, unite_indexed, unite_unsorted,
};

#[test]
fn partition_keeps_the_order_within_each_group() {
    let (less, equal, greater) = partition(&[5, 1, 9, 3, 7], 5);
    assert_eq!(less, vec![1, 3]);
    assert_eq!(equal, vec![5]);
    assert_eq!(greater, vec![9, 7]);
}

#[test]
fn partition_indexed_gives_positions() {
    let (less, equal, greater) = partition_indexed(&[5, 1, 9, 3, 7, 5], 5);
    assert_eq!(less, vec![1, 3]);
    assert_eq!(equal, vec![0, 5]);
    assert_eq!(greater, vec![2, 4]);
    let empty: [u8; 0] = [];
    assert_eq!(partition_indexed(&empty, 1), (vec![], vec![], vec![]));
}

#[test]
fn merge_keeps_every_item() {
    let a = [1u8, 3, 3, 5, 8];
    let b = [2u8, 3, 5, 5, 9, 10];
    let m = merge(&a, &b);
    assert_eq!(m, vec![1, 2, 3, 3, 3, 5, 5, 5, 8, 9, 10]);
    assert_eq!(m.len(), a.len() + b.len());
    assert_eq!(merge(&a, &[]), a.to_vec());
    assert_eq!(merge(&[], &b), b.to_vec());
}

#[test]
fn unite_keeps_one_of_each_matched_pair() {
    let a = [1u8, 3, 3, 5, 8];
    let b = [2u8, 3, 5, 5, 9, 10];
    assert_eq!(unite(&a, &b), vec![1, 2, 3, 3, 5, 5, 8, 9, 10]);
    assert_eq!(unite_unsorted(&[3u8, 1], &[2u8, 3]), vec![3, 1, 2, 3]);
}

#[test]
fn intersection_and_difference_split_the_first_input() {
    let a = [1u8, 3, 3, 5, 8];
    let b = [2u8, 3, 5, 5, 9, 10];
    let i = intersect(&a, &b);
    let d = diff(&a, &b);
    assert_eq!(i, vec![3, 5]);
    assert_eq!(d, vec![1, 3, 8]);
    let mut both = merge(&i, &d);
    both.sort();
    assert_eq!(both, a.to_vec());
    assert!(i.iter().all(|x| b.contains(x)));
    assert_eq!(intersect(&a, &[]), Vec::<u8>::new());
    assert_eq!(diff(&a, &[]), a.to_vec());
    assert_eq!(diff(&[], &b), Vec::<u8>::new());
}

#[test]
fn indexed_set_operations_read_through_the_indices() {
    let v1 = [8u8, 3, 1, 5, 3];
    let v2 = [10u8, 5, 2, 9, 3, 5];
    let i1 = sortidx(&v1);
    let i2 = sortidx(&v2);
    assert_eq!(unite_indexed(&v1, &i1, &v2, &i2), vec![1, 2, 3, 3, 5, 5, 8, 9, 10]);
    assert_eq!(intersect_indexed(&v1, &i1, &v2, &i2), vec![3, 5]);
    assert_eq!(diff_indexed(&v1, &i1, &v2, &i2), vec![1, 3, 8]);
}

#[test]
fn merge_indexed_gives_an_index_of_the_concatenation() {
    let v1 = [8u8, 3, 1];
    let v2 = [2u8, 9, 3];
    let (all, idx) = merge_indexed(&v1, &sortidx(&v1), &v2, &sortidx(&v2));
    assert_eq!(all, vec![8, 3, 1, 2, 9, 3]);
    assert_eq!(idx, vec![2, 3, 1, 5, 0, 4]);
    assert_eq!(idx, sortidx(&all));
}

#[test]
fn sansrepeat_drops_repetitions() {
    assert_eq!(sansrepeat(&[1u8, 1, 2, 3, 3, 3, 4, 1, 1]), vec![1, 2, 3, 4, 1]);
    assert_eq!(sansrepeat(&[7u8]), vec![7]);
    let empty: [u8; 0] = [];
    assert_eq!(sansrepeat(&empty), Vec::<u8>::new());
}
