use indxvec::correlation::correlation_terms;
use indxvec::error::idx_error;
use indxvec::extrema::{maxt, minmax, minmax_indexed, minmax_slice, minmaxt, mint};
use indxvec::indices::{complindex, revs, select};
use indxvec::mergesort::rank;
use indxvec::mutops::{mutrevs, mutsortthree, mutsorttwo, part_binary};
use indxvec::random::{ranbits, ranu8, ranvu8, ranvvu8};
use indxvec::{IdxError, MinMax};

fn coefficient(x: &[usize], y: &[usize]) -> f64 {
    let c = correlation_terms(x, y).unwrap();
    let sign = if c.negative { -1.0 } else { 1.0 };
    sign * (c.covariance as f64) / ((c.variance_x as f64) * (c.variance_y as f64)).sqrt()
}

#[test]
fn rank_correlation_with_itself_and_with_its_complement() {
    let v = [1, 14, 2, 13, 3, 12, 4, 11, 5, 10, 6, 9, 7, 8, 15];
    let up = rank(&v, true);
    let down = rank(&v, false);
    assert_eq!(coefficient(&up, &up), 1.0);
    assert_eq!(coefficient(&up, &down), -1.0);
    assert_eq!(down, complindex(&up));
}

#[test]
fn correlation_terms_are_exact() {
    // n = 4, Σx = 6, Σy = 8, Σxy = 11, Σx² = 14, Σy² = 26
    let x = [0usize, 1, 2, 3];
    let y = [3usize, 0, 4, 1];
    let c = correlation_terms(&x, &y).unwrap();
    assert!(c.negative);
    assert_eq!(c.covariance, 4);
    assert_eq!(c.variance_x, 20);
    assert_eq!(c.variance_y, 40);
    let c = correlation_terms(&y, &y).unwrap();
    assert!(!c.negative);
    assert_eq!((c.covariance, c.variance_x, c.variance_y), (40, 40, 40));
}

#[test]
fn correlation_refuses_what_has_no_coefficient() {
    assert!(matches!(correlation_terms(&[], &[]), Err(IdxError::Size(_))));
    assert!(matches!(correlation_terms(&[1, 2], &[1]), Err(IdxError::Size(_))));
    assert!(matches!(correlation_terms(&[2, 2, 2], &[1, 2, 3]), Err(IdxError::Other(_))));
    assert!(matches!(correlation_terms(&[1, 2, 3], &[0, 0, 0]), Err(IdxError::Other(_))));
    assert!(matches!(correlation_terms(&[7], &[9]), Err(IdxError::Other(_))));
    let big = [usize::MAX, usize::MAX - 1, 5];
    assert!(matches!(correlation_terms(&big, &big), Err(IdxError::Other(_))));
}

#[test]
fn errors_by_kind_name() {
    let e: Result<(), IdxError<String>> = idx_error("size", "empty");
    match e {
        Err(IdxError::Size(m)) => assert_eq!(m, "empty"),
        _ => panic!("not a Size error"),
    }
    let e: Result<u8, IdxError<String>> = idx_error("other", String::from("odd"));
    match e {
        Err(IdxError::Other(m)) => assert_eq!(m, "odd"),
        _ => panic!("not an Other error"),
    }
    let e: Result<u8, IdxError<String>> = idx_error("sizes", "x");
    match e {
        Err(IdxError::Other(m)) => assert_eq!(m, "Wrong error kind given to idx_error"),
        _ => panic!("not an Other error"),
    }
    let e: Result<u8, IdxError<String>> = idx_error("", "x");
    assert!(matches!(e, Err(IdxError::Other(_))));
}

#[test]
fn error_messages() {
    let e: IdxError<String> = IdxError::Size(String::from("0"));
    assert_eq!(e.message(), "Size of data must be positive: 0");
    assert_eq!(e.payload(), "0");
    let e: IdxError<String> = IdxError::Other(String::from("io"));
    assert_eq!(e.message(), "Converted from: io");
}

#[test]
fn extrema_report_first_occurrences() {
    let v = [3u8, 1, 4, 1, 5, 9, 2, 6, 5, 9];
    let m = minmax(&v);
    assert_eq!((m.min, m.minindex, m.max, m.maxindex), (1, 1, 9, 5));
    assert_eq!(minmaxt(&v), (1, 9));
    assert_eq!(maxt(&v), 9);
    assert_eq!(mint(&v), 1);
    let m = minmax_slice(&v, 2, 3);
    assert_eq!((m.min, m.minindex, m.max, m.maxindex), (1, 3, 5, 4));
    let m = minmax_slice(&v, 9, 1);
    assert_eq!((m.min, m.minindex, m.max, m.maxindex), (9, 9, 9, 9));
    let idx = [9usize, 0, 1, 3, 5, 2];
    let m = minmax_indexed(&v, &idx, 1, 4);
    assert_eq!((m.min, m.minindex, m.max, m.maxindex), (1, 2, 9, 4));
    let m = minmax_indexed(&v, &idx, 0, 1);
    assert_eq!((m.min, m.minindex, m.max, m.maxindex), (9, 0, 9, 0));
}

#[test]
fn reversal_and_selection() {
    assert_eq!(revs(&[1u8, 2, 3]), vec![3, 2, 1]);
    assert_eq!(select(&[2usize, 0, 2], &['a', 'b', 'c']), vec!['c', 'a', 'c']);
    let mut v = vec![1u8, 2, 3, 4, 5];
    mutrevs(&mut v);
    assert_eq!(v, vec![5, 4, 3, 2, 1]);
    let mut v = vec![1u8, 2, 3, 4];
    mutrevs(&mut v);
    assert_eq!(v, vec![4, 3, 2, 1]);
    let mut none: Vec<u8> = Vec::new();
    mutrevs(&mut none);
    assert!(none.is_empty());
}

#[test]
fn small_sorts_in_place() {
    let mut v = vec![9u8, 4, 7];
    assert!(mutsorttwo(&mut v, 0, 1));
    assert_eq!(v, vec![4, 9, 7]);
    assert!(!mutsorttwo(&mut v, 0, 1));
    let mut v = vec![9u8, 4, 7, 1];
    mutsortthree(&mut v, 0, 1, 2);
    assert_eq!(v, vec![4, 7, 9, 1]);
    mutsortthree(&mut v, 0, 2, 3);
    assert_eq!(v, vec![1, 7, 4, 9]);
}

#[test]
fn part_binary_puts_clear_items_first() {
    let mut data = [257u32, 9, 8, 7, 6, 5, 4, 3, 2, 1];
    let n = data.len();
    let gtsub = part_binary(&mut data, &(0..n), 0b11);
    assert_eq!(gtsub, 2);
    assert!(data[..gtsub].iter().all(|x| x & 0b11 == 0));
    assert!(data[gtsub..].iter().all(|x| x & 0b11 != 0));
    let mut sorted = data.to_vec();
    sorted.sort();
    assert_eq!(sorted, vec![1, 2, 3, 4, 5, 6, 7, 8, 9, 257]);
    let mut data = [4u8, 8, 1, 12, 3, 16];
    assert_eq!(part_binary(&mut data, &(1..5), 0b11), 3);
    assert_eq!(data, [4, 8, 12, 1, 3, 16]);
    assert_eq!(part_binary(&mut data, &(2..2), 1), 2);
}

#[test]
fn random_bytes_follow_the_shift_register() {
    let mut seed = 1u64;
    assert_eq!(ranvu8(8, &mut seed), vec![0, 2, 244, 167, 96, 130, 48, 100]);
    assert_eq!(seed, 14279964170112293133);
    let mut seed = 123456789u64;
    assert_eq!(ranvu8(8, &mut seed), vec![170, 187, 108, 143, 210, 27, 91, 85]);
    assert_eq!(seed, 6055851353308732780);
    let mut seed = 123456789u64;
    assert_eq!(ranu8(&mut seed), 170);
    let mut seed = 123456789u64;
    assert_eq!(ranbits(&mut seed) >> 45, 170);
    assert!(seed != 123456789);
    let mut seed = 123456789u64;
    let rows = ranvvu8(4, 2, &mut seed);
    assert_eq!(rows, vec![vec![170, 187, 108, 143], vec![210, 27, 91, 85]]);
    assert_eq!(seed, 6055851353308732780);
}

#[test]
fn default_extremes() {
    let m: MinMax<u8> = MinMax::default();
    assert_eq!((m.min, m.minindex, m.max, m.maxindex), (0, 0, 0, 0));
}
