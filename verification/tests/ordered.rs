use indxvec::comparator::{mutisort, part};
use indxvec::{Mutops, Vecops};

#[test]
fn mutisort_sorts_a_range_and_keeps_equal_items_in_order() {
    let mut v = vec![(3u8, 'a'), (1, 'b'), (3, 'c'), (2, 'd'), (1, 'e'), (3, 'f')];
    let n = v.len();
    mutisort(&mut v, 0..n, |x, y| x.0.cmp(&y.0));
    assert_eq!(v, vec![(1, 'b'), (1, 'e'), (2, 'd'), (3, 'a'), (3, 'c'), (3, 'f')]);
    let mut v = vec![9u8, 8, 7, 6, 5, 4, 3];
    mutisort(&mut v, 2..6, |x, y| x.cmp(y));
    assert_eq!(v, vec![9, 8, 4, 5, 6, 7, 3]);
    mutisort(&mut v, 0..7, |x, y| y.cmp(x));
    assert_eq!(v, vec![9, 8, 7, 6, 5, 4, 3]);
    mutisort(&mut v, 3..3, |x, y| x.cmp(y));
    mutisort(&mut v, 3..4, |x, y| x.cmp(y));
    assert_eq!(v, vec![9, 8, 7, 6, 5, 4, 3]);
    let mut none: Vec<u8> = Vec::new();
    mutisort(&mut none, 0..0, |x, y| x.cmp(y));
    assert!(none.is_empty());
}

#[test]
fn part_divides_references_around_the_pivot() {
    let data = [5u8, 1, 9, 5, 3, 7, 5, 0];
    let mut refs: Vec<&u8> = data.iter().collect();
    let n = refs.len();
    let (eqstart, gtstart) = part(&mut refs, &(0..n), |a, b| a.cmp(b));
    assert_eq!((eqstart, gtstart), (3, 6));
    let mut less: Vec<u8> = refs[..eqstart].iter().map(|r| **r).collect();
    less.sort();
    assert_eq!(less, vec![0, 1, 3]);
    let mut more: Vec<u8> = refs[gtstart..].iter().map(|r| **r).collect();
    more.sort();
    assert_eq!(more, vec![7, 9]);
    // a range inside, pivot 9
    let mut refs: Vec<&u8> = data.iter().collect();
    let (eqstart, gtstart) = <[u8] as Mutops<u8>>::part(&mut refs, &(2..6), |a, b| a.cmp(b));
    assert_eq!((eqstart, gtstart), (5, 6));
    assert_eq!(*refs[0], 5);
    assert_eq!(*refs[1], 1);
    assert_eq!(*refs[6], 5);
    assert_eq!(*refs[7], 0);
    let mut less: Vec<u8> = refs[2..eqstart].iter().map(|r| **r).collect();
    less.sort();
    assert_eq!(less, vec![3, 5, 7]);
    // one item
    let mut refs: Vec<&u8> = data.iter().collect();
    assert_eq!(part(&mut refs, &(4..5), |a, b| a.cmp(b)), (4, 5));
}

#[test]
fn references_in_and_out() {
    let data = [5u8, 1, 9, 5, 3];
    let refs = data.ref_vec(1..4);
    assert_eq!(refs, vec![&1, &9, &5]);
    assert_eq!(<&[u8] as Vecops<u8>>::deref_vec(&refs, 1..3), vec![9, 5]);
    assert_eq!(<&[u8] as Vecops<u8>>::deref_vec(&refs, 2..9), vec![5]);
    assert_eq!(<&[u8] as Vecops<u8>>::deref_vec(&refs, 7..9), Vec::<u8>::new());
    assert_eq!(data.ref_vec(4..2), Vec::<&u8>::new());
}

#[test]
fn member_by_equality_from_either_end() {
    let v = [3u8, 1, 3, 2, 3, 2];
    assert_eq!(v.member(3, true), Some(0));
    assert_eq!(v.member(3, false), Some(4));
    assert_eq!(v.member(2, false), Some(5));
    assert_eq!(v.member(7, true), None);
    assert_eq!(v.member(7, false), None);
}
