use indxvec::indices::{complindex, invindex, newindex, revs, unindex};
use indxvec::mergesort::{merge_indices, mergesort, rank, sortidx, sortm};

const DATA: [i32; 15] = [1, 14, 2, 13, 3, 12, 4, 11, 5, 10, 6, 9, 7, 8, 15];

#[test]
fn sort_index_then_unindex_gives_ascending_data() {
    let idx = mergesort(&DATA, 0, DATA.len());
    assert_eq!(idx, vec![0, 2, 4, 6, 8, 10, 12, 13, 11, 9, 7, 5, 3, 1, 14]);
    let sorted = unindex(&idx, &DATA, true);
    assert_eq!(sorted, vec![1, 2, 3, 4, 5, 6, 7, 8, 9, 10, 11, 12, 13, 14, 15]);
    let down = unindex(&idx, &DATA, false);
    assert_eq!(down, vec![15, 14, 13, 12, 11, 10, 9, 8, 7, 6, 5, 4, 3, 2, 1]);
}

#[test]
fn mergesort_of_nothing_and_of_one() {
    let empty: [u8; 0] = [];
    assert_eq!(mergesort(&empty, 0, 0), Vec::<usize>::new());
    assert_eq!(sortidx(&empty), Vec::<usize>::new());
    assert_eq!(mergesort(&[7u8, 3, 9], 1, 1), vec![1]);
    assert_eq!(mergesort(&[7u8, 3, 9], 1, 2), vec![1, 2]);
    assert_eq!(mergesort(&[7u8, 3, 9], 0, 2), vec![1, 0]);
}

#[test]
fn mergesort_keeps_equal_items_in_place_order() {
    let v: [(u8, u8); 7] = [(2, 0), (1, 1), (2, 2), (1, 3), (2, 4), (1, 5), (2, 6)];
    let keys: Vec<u8> = v.iter().map(|p| p.0).collect();
    let idx = sortidx(&keys);
    assert_eq!(idx, vec![1, 3, 5, 0, 2, 4, 6]);
}

#[test]
fn merge_indices_takes_left_on_ties() {
    let s = [5u8, 5, 5];
    assert_eq!(merge_indices(&s, &[0, 1], &[2]), vec![0, 1, 2]);
    assert_eq!(merge_indices(&s, &[2], &[0, 1]), vec![2, 0, 1]);
    assert_eq!(merge_indices(&s, &[], &[1, 0]), vec![1, 0]);
    assert_eq!(merge_indices(&s, &[1], &[]), vec![1]);
}

#[test]
fn ranks_are_the_inverse_of_the_sort_index() {
    let r = rank(&DATA, true);
    assert_eq!(r, vec![0, 13, 1, 12, 2, 11, 3, 10, 4, 9, 5, 8, 6, 7, 14]);
    assert_eq!(invindex(&sortidx(&DATA)), r);
    assert_eq!(unindex(&invindex(&r), &DATA, true), sortm(&DATA, true));
}

#[test]
fn descending_ranks_are_the_complement_not_the_reversal() {
    let up = rank(&DATA, true);
    let down = rank(&DATA, false);
    assert_eq!(down, complindex(&up));
    assert_ne!(down, revs(&up));
    assert_eq!(down, vec![14, 1, 13, 2, 12, 3, 11, 4, 10, 5, 9, 6, 8, 7, 0]);
    assert_eq!(invindex(&down), revs(&sortidx(&DATA)));
}

#[test]
fn index_involutions() {
    let p: Vec<usize> = vec![3, 0, 4, 1, 2];
    assert_eq!(invindex(&p), vec![1, 3, 4, 0, 2]);
    assert_eq!(invindex(&invindex(&p)), p);
    assert_eq!(complindex(&p), vec![1, 4, 0, 3, 2]);
    assert_eq!(complindex(&complindex(&p)), p);
    assert_eq!(newindex(4), vec![0, 1, 2, 3]);
    assert_eq!(newindex(0), Vec::<usize>::new());
}

#[test]
fn sortm_both_directions() {
    assert_eq!(sortm(&[3u8, 1, 2, 1], true), vec![1, 1, 2, 3]);
    assert_eq!(sortm(&[3u8, 1, 2, 1], false), vec![3, 2, 1, 1]);
}
