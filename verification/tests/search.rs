use core::cmp::Ordering;
use indxvec::lookup::{
    binsearch, binsearchdesc, member, memsearch, memsearch_indexed, memsearchdesc,
    memsearchdesc_indexed, occurs, occurs_multiple,
};
use indxvec::mergesort::sortidx;
use indxvec::search::{equal_range, equal_range_indexed};
use indxvec::Search;

const ASC: [i32; 7] = [1, 2, 3, 3, 3, 4, 5];
const DESC: [i32; 7] = [5, 4, 3, 3, 3, 2, 1];

fn run_asc(target: i32) -> core::ops::Range<usize> {
    (0..ASC.len()).binary_all(|i| ASC[i].cmp(&target))
}

#[test]
fn binary_all_finds_the_whole_run() {
    assert_eq!(run_asc(3), 2..5);
}

#[test]
fn binary_all_insert_after_and_before() {
    assert_eq!(run_asc(6), 7..7);
    assert_eq!(run_asc(0), 0..0);
}

#[test]
fn binary_all_runs_at_the_ends() {
    assert_eq!(run_asc(1), 0..1);
    assert_eq!(run_asc(5), 6..7);
    assert_eq!(run_asc(2), 1..2);
    assert_eq!(run_asc(4), 5..6);
    let same = [7u8; 5];
    assert_eq!((0..5usize).binary_all(|i| same[i].cmp(&7)), 0..5);
    let two = [3u8, 3, 9];
    assert_eq!((0..3usize).binary_all(|i| two[i].cmp(&3)), 0..2);
    assert_eq!((0..3usize).binary_all(|i| two[i].cmp(&9)), 2..3);
}

#[test]
fn binary_all_missing_inside() {
    let v = [10u32, 20, 30, 40, 50, 60];
    for (target, at) in [(15u32, 1usize), (25, 2), (35, 3), (45, 4), (55, 5)] {
        assert_eq!((0..v.len()).binary_all(|i| v[i].cmp(&target)), at..at);
    }
}

#[test]
fn binary_all_of_an_empty_range() {
    let v: [u8; 0] = [];
    assert_eq!((0..0usize).binary_all(|i| v[i].cmp(&1)), 0..0);
    assert_eq!((4..4usize).binary_all(|_| Ordering::Less), 4..4);
    assert_eq!((5..3usize).binary_all(|_| Ordering::Less), 5..5);
}

#[test]
fn binary_all_detects_descending_data() {
    let found = (0..DESC.len()).binary_all(|i| DESC[i].cmp(&3));
    assert_eq!(found, 2..5);
    assert_eq!((0..DESC.len()).binary_all(|i| DESC[i].cmp(&4)), 1..2);
    assert_eq!((0..DESC.len()).binary_all(|i| DESC[i].cmp(&5)), 0..1);
    assert_eq!((0..DESC.len()).binary_all(|i| DESC[i].cmp(&1)), 6..7);
    let gaps = [9u8, 7, 5, 3];
    assert_eq!((0..4usize).binary_all(|i| gaps[i].cmp(&6)), 2..2);
}

#[test]
fn binary_all_on_a_part_of_the_data() {
    assert_eq!((3..7usize).binary_all(|i| ASC[i].cmp(&3)), 3..5);
    assert_eq!((5..7usize).binary_all(|i| ASC[i].cmp(&3)), 5..5);
    assert_eq!((0..2usize).binary_all(|i| ASC[i].cmp(&3)), 2..2);
}

#[test]
fn binary_any_brackets_the_target() {
    let v = [1u8, 3, 5, 7, 9, 11];
    // The start is never probed and is taken to answer Less.
    let (hit, envelope) = (0..v.len()).binary_any(|i| v[i].cmp(&7));
    assert_eq!(hit, 3);
    assert!(envelope.start < hit && hit < envelope.end);
    let (at, envelope) = (0..v.len()).binary_any(|i| v[i].cmp(&8));
    assert_eq!(at, 4);
    assert_eq!(envelope, 3..4);
    let (at, envelope) = (0..v.len()).binary_any(|i| v[i].cmp(&100));
    assert_eq!((at, envelope), (6, 5..6));
    let (at, envelope) = (2..2usize).binary_any(|i| v[i].cmp(&1));
    assert_eq!((at, envelope), (2, 2..2));
}

#[test]
fn binary_by_gives_hit_or_insert_position() {
    let v = [1u8, 3, 5, 7, 9, 11];
    assert_eq!((0..v.len()).binary_by(|i| v[i].cmp(&9)), Ok(4));
    assert_eq!((0..v.len()).binary_by(|i| v[i].cmp(&4)), Err(2));
    assert_eq!((3..3usize).binary_by(|i| v[i].cmp(&4)), Err(3));
}

#[test]
fn equal_range_of_slices_both_directions() {
    assert_eq!(equal_range(&ASC, 3), 2..5);
    assert_eq!(equal_range(&ASC, 0), 0..0);
    assert_eq!(equal_range(&ASC, 9), 7..7);
    assert_eq!(equal_range(&DESC, 3), 2..5);
    // In descending data a larger target belongs at the front.
    assert_eq!(equal_range(&DESC, 9), 0..0);
    assert_eq!(equal_range(&DESC, 0), 7..7);
    let empty: [i32; 0] = [];
    assert_eq!(equal_range(&empty, 1), 0..0);
    assert_eq!(equal_range(&[4u8], 4), 0..1);
    assert_eq!(equal_range(&[4u8], 5), 1..1);
    assert_eq!(equal_range(&[4u8], 3), 0..0);
}

#[test]
fn equal_range_through_an_index() {
    let v = [30u8, 10, 20, 20, 40, 20];
    let idx = sortidx(&v);
    assert_eq!(equal_range_indexed(&v, &idx, 20), 1..4);
    assert_eq!(equal_range_indexed(&v, &idx, 25), 4..4);
    let mut down = idx.clone();
    down.reverse();
    assert_eq!(equal_range_indexed(&v, &down, 20), 2..5);
    assert_eq!(equal_range_indexed(&v, &down, 50), 0..0);
}

#[test]
fn memsearch_finds_members_also_at_the_ends() {
    let v = [1u8, 2, 3];
    assert_eq!(memsearch(&v, 1), Some(0));
    assert_eq!(memsearch(&v, 2), Some(1));
    assert_eq!(memsearch(&v, 3), Some(2));
    assert_eq!(memsearch(&v, 0), None);
    assert_eq!(memsearch(&v, 4), None);
    assert_eq!(memsearch(&[1u8, 3, 5, 7], 4), None);
    let empty: [u8; 0] = [];
    assert_eq!(memsearch(&empty, 4), None);
    assert_eq!(memsearch(&[4u8], 4), Some(0));
    assert_eq!(memsearch(&[4u8], 5), None);
}

#[test]
fn memsearchdesc_finds_members() {
    let v = [9u8, 7, 5, 3, 1];
    for (k, x) in v.iter().enumerate() {
        assert_eq!(memsearchdesc(&v, *x), Some(k));
    }
    assert_eq!(memsearchdesc(&v, 4), None);
    assert_eq!(memsearchdesc(&v, 10), None);
    assert_eq!(memsearchdesc(&v, 0), None);
}

#[test]
fn memsearch_through_an_index() {
    let v = [30u8, 10, 50, 20, 40];
    let idx = sortidx(&v);
    assert_eq!(memsearch_indexed(&v, &idx, 10), Some(0));
    assert_eq!(memsearch_indexed(&v, &idx, 40), Some(3));
    assert_eq!(memsearch_indexed(&v, &idx, 50), Some(4));
    assert_eq!(memsearch_indexed(&v, &idx, 35), None);
    let mut down = idx.clone();
    down.reverse();
    assert_eq!(memsearchdesc_indexed(&v, &down, 50), Some(0));
    assert_eq!(memsearchdesc_indexed(&v, &down, 20), Some(3));
    assert_eq!(memsearchdesc_indexed(&v, &down, 15), None);
}

#[test]
fn binsearch_counts_items_not_after() {
    assert_eq!(binsearch(&ASC, 3), 5);
    assert_eq!(binsearch(&ASC, 0), 0);
    assert_eq!(binsearch(&ASC, 5), 7);
    assert_eq!(binsearch(&ASC, 1), 1);
    let empty: [i32; 0] = [];
    assert_eq!(binsearch(&empty, 1), 0);
    assert_eq!(binsearchdesc(&DESC, 3), 5);
    assert_eq!(binsearchdesc(&DESC, 6), 0);
    assert_eq!(binsearchdesc(&DESC, 0), 7);
    assert_eq!(binsearchdesc(&DESC, 5), 1);
}

#[test]
fn occurrences_by_scan_and_by_two_searches() {
    let v = [3u8, 1, 3, 2, 3, 2];
    assert_eq!(occurs(&v, 3), 3);
    assert_eq!(occurs(&v, 2), 2);
    assert_eq!(occurs(&v, 9), 0);
    assert_eq!(occurs_multiple(&ASC, &DESC, 3), 3);
    assert_eq!(occurs_multiple(&ASC, &DESC, 1), 1);
    assert_eq!(occurs_multiple(&ASC, &DESC, 5), 1);
    assert_eq!(occurs_multiple(&ASC, &DESC, 0), 0);
    assert_eq!(occurs_multiple(&ASC, &DESC, 6), 0);
}

#[test]
fn member_is_the_first_occurrence() {
    let v = [3u8, 1, 3, 2, 3, 2];
    assert_eq!(member(&v, 3), Some(0));
    assert_eq!(member(&v, 2), Some(3));
    assert_eq!(member(&v, 7), None);
}
