use indxvec::buckets::bucket_of;
use indxvec::hashsort::{
    hashsort, hashsort_indexed, hashsort_listed, hashsortslice, keyindex, muthashsort,
    muthashsortslice, sorth,
};
use indxvec::isort::{isort_segment, isortthree, isorttwo, testswap};
use indxvec::indices::unindex;
use indxvec::inplace::sort_both;
use indxvec::mergesort::sortm;
use indxvec::random::ranvu8;

fn is_permutation(idx: &[usize]) -> bool {
    let mut seen = vec![false; idx.len()];
    for &i in idx {
        if i >= idx.len() || seen[i] {
            return false;
        }
        seen[i] = true;
    }
    true
}

#[test]
fn hashsort_agrees_with_mergesort_on_values() {
    let mut seed = 7u64;
    for size in [1usize, 2, 3, 4, 5, 50, 119, 120, 121, 500, 3000] {
        let v = ranvu8(size, &mut seed);
        let idx = hashsort_indexed(&v, |x| *x as u64);
        assert!(is_permutation(&idx));
        assert_eq!(unindex(&idx, &v, true), sortm(&v, true));
        assert_eq!(sorth(&v, |x| *x as u64, true), sortm(&v, true));
        assert_eq!(sorth(&v, |x| *x as u64, false), sortm(&v, false));
    }
}

#[test]
fn hashsort_of_wide_and_clustered_keys() {
    let mut keys: Vec<u64> = Vec::new();
    let mut s = 99u64;
    for k in 0..2000u64 {
        s = s.wrapping_mul(6364136223846793005).wrapping_add(1442695040888963407);
        // most keys close together, a few far away
        keys.push(if k % 97 == 0 { s } else { 1_000_000 + (s >> 60) });
    }
    keys.push(u64::MAX);
    keys.push(0);
    let idx = hashsort_indexed(&keys, |x| *x);
    assert!(is_permutation(&idx));
    let sorted = unindex(&idx, &keys, true);
    assert!(sorted.windows(2).all(|w| w[0] <= w[1]));
    assert_eq!(sorted, sortm(&keys, true));
}

#[test]
fn hashsort_of_equal_keys_and_of_nothing() {
    let same = vec![5u8; 300];
    let idx = hashsort_indexed(&same, |x| *x as u64);
    assert!(is_permutation(&idx));
    let none: Vec<u8> = Vec::new();
    assert_eq!(hashsort_indexed(&none, |x| *x as u64), Vec::<usize>::new());
    assert_eq!(hashsort(&none, 3, 1, |x| *x as u64), Vec::<usize>::new());
    assert_eq!(hashsort(&same, 5, 5, |x| *x as u64).len(), 300);
}

#[test]
fn hashsort_with_a_given_range() {
    let mut seed = 11u64;
    let v = ranvu8(1000, &mut seed);
    let idx = hashsort(&v, 0, 255, |x| *x as u64);
    assert!(is_permutation(&idx));
    assert_eq!(unindex(&idx, &v, true), sortm(&v, true));
    // a range that is wider than the data
    let idx = hashsort(&v, 0, 1_000_000, |x| *x as u64);
    assert_eq!(unindex(&idx, &v, true), sortm(&v, true));
}

#[test]
fn hashsort_by_a_key_that_is_not_the_item() {
    let words = ["wall", "a", "Humpty", "sat", "on", "Dumpty", "king's", "the", "together"];
    let by_len = sorth(&words, |w| w.len() as u64, true);
    let lens: Vec<usize> = by_len.iter().map(|w| w.len()).collect();
    assert_eq!(lens, vec![1, 2, 3, 3, 4, 6, 6, 6, 8]);
    let idx = keyindex(&words, |w| w.len() as u64, false);
    let lens: Vec<usize> = idx.iter().map(|&i| words[i].len()).collect();
    assert_eq!(lens, vec![8, 6, 6, 6, 4, 3, 3, 2, 1]);
    assert!(is_permutation(&idx));
}

#[test]
fn hashsortslice_sorts_only_its_part() {
    let keys: Vec<u64> = (0..400u64).map(|k| (k * 7919) % 1000).collect();
    let mut idx: Vec<usize> = (0..400).collect();
    hashsortslice(&keys, &mut idx, 100, 250, 0, 999);
    assert!(is_permutation(&idx));
    assert_eq!(&idx[..100], &(0..100).collect::<Vec<usize>>()[..]);
    assert_eq!(&idx[350..], &(350..400).collect::<Vec<usize>>()[..]);
    assert!(idx[100..350].windows(2).all(|w| keys[w[0]] <= keys[w[1]]));
    let mut part: Vec<usize> = idx[100..350].to_vec();
    part.sort();
    assert_eq!(part, (100..350).collect::<Vec<usize>>());
    let v: Vec<u8> = keys.iter().map(|k| (k % 256) as u8).collect();
    let mut idx: Vec<usize> = (0..400).collect();
    hashsort_listed(&v, &mut idx, 0, 400, 0, 255, |x| *x as u64);
    assert!(idx.windows(2).all(|w| v[w[0]] <= v[w[1]]));
}

#[test]
fn muthashsort_sorts_in_place() {
    let mut seed = 5u64;
    let v = ranvu8(777, &mut seed);
    let mut m = v.clone();
    muthashsort(&mut m, |x| *x as u64);
    assert_eq!(m, sortm(&v, true));
    let mut part = v.clone();
    muthashsortslice(&mut part, 100, 500, 0, 255, |x| *x as u64);
    assert_eq!(&part[..100], &v[..100]);
    assert_eq!(&part[600..], &v[600..]);
    assert_eq!(&part[100..600], &sortm(&v[100..600], true)[..]);
}

#[test]
fn small_index_sorts() {
    let s = [30u8, 10, 20, 5];
    let mut idx = vec![0usize, 1, 2, 3];
    assert!(isorttwo(&s, &mut idx, 0, 1));
    assert_eq!(idx, vec![1, 0, 2, 3]);
    assert!(!isorttwo(&s, &mut idx, 0, 1));
    testswap(&s, &mut idx, 2, 3);
    assert_eq!(idx, vec![1, 0, 3, 2]);
    let mut idx = vec![0usize, 1, 2, 3];
    isortthree(&s, &mut idx, 0, 1, 2);
    assert_eq!(idx, vec![1, 2, 0, 3]);
    let mut idx = vec![0usize, 1, 2, 3];
    isortthree(&s, &mut idx, 3, 0, 2);
    assert_eq!(idx, vec![2, 1, 0, 3]);
    let mut idx = vec![0usize, 1, 2, 3];
    isort_segment(&s, &mut idx, 0, 4);
    assert_eq!(idx, vec![3, 1, 2, 0]);
    let mut idx = vec![0usize, 1, 2, 3];
    isort_segment(&s, &mut idx, 1, 2);
    assert_eq!(idx, vec![0, 1, 2, 3]);
}

#[test]
fn buckets_share_the_range_in_proportion() {
    assert_eq!(bucket_of(0, 0, 100, 10), 0);
    assert_eq!(bucket_of(9, 0, 100, 10), 0);
    assert_eq!(bucket_of(10, 0, 100, 10), 1);
    assert_eq!(bucket_of(50, 0, 100, 10), 5);
    assert_eq!(bucket_of(99, 0, 100, 10), 9);
    // the largest key falls into the last bucket
    assert_eq!(bucket_of(100, 0, 100, 10), 9);
    assert_eq!(bucket_of(7, 5, 8, 3), 2);
    assert_eq!(bucket_of(6, 5, 8, 3), 1);
    assert_eq!(bucket_of(u64::MAX, 0, u64::MAX, 1000), 999);
    assert_eq!(bucket_of(u64::MAX / 2, 0, u64::MAX, 1000), 499);
}

#[test]
fn sort_both_moves_items_with_their_keys() {
    let mut items: Vec<char> = "the quick brown fox jumps over the lazy dog".chars().collect();
    let mut keys: Vec<u64> = items.iter().map(|c| *c as u64).collect();
    let n = keys.len();
    // the keys belong to the items from the fourth on
    let mut held: Vec<char> = "xyz".chars().collect();
    held.extend(items.iter());
    sort_both(&mut held, &mut keys, 3, 0, n, 32, 122);
    assert_eq!(&held[..3], &['x', 'y', 'z']);
    items.sort();
    assert_eq!(&held[3..], &items[..]);
    assert!(keys.windows(2).all(|w| w[0] <= w[1]));
    assert!(held[3..].iter().zip(keys.iter()).all(|(c, k)| *c as u64 == *k));
    // a part of the keys only
    let mut held: Vec<u32> = (0..300).rev().collect();
    let mut keys: Vec<u64> = held.iter().map(|x| *x as u64).collect();
    sort_both(&mut held, &mut keys, 0, 50, 200, 0, 299);
    assert_eq!(&held[..50], &(250..300).rev().collect::<Vec<u32>>()[..]);
    assert_eq!(&held[50..250], &(50..250).collect::<Vec<u32>>()[..]);
    assert_eq!(&held[250..], &(0..50).rev().collect::<Vec<u32>>()[..]);
}

#[test]
fn hashsort_of_keys_over_many_magnitudes() {
    let mut keys: Vec<u64> = Vec::new();
    for round in 0..300u64 {
        for k in 0..64u32 {
            keys.push((1u64 << k).wrapping_add(round * 7));
        }
    }
    let idx = hashsort_indexed(&keys, |x| *x);
    assert!(is_permutation(&idx));
    assert!(idx.windows(2).all(|w| keys[w[0]] <= keys[w[1]]));
    let mut in_place = keys.clone();
    muthashsort(&mut in_place, |x| *x);
    let mut reference = keys.clone();
    reference.sort();
    assert_eq!(in_place, reference);
}
