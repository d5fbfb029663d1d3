use indxvec::random::ranvu8;
use indxvec::{Indices, Mutops, Search, Vecops};

fn ranv_u8(size: usize, seed: &mut u64) -> Vec<u8> {
    ranvu8(size, seed)
}

#[test]
fn partbin() {
    let mut data = [257_u32, 9, 8, 7, 6, 5, 4, 3, 2, 1];
    let n = data.len();
    let gtsub = data.part_binary(&(0..n), 0b11);
    assert_eq!(gtsub, 2);
    assert_eq!(&data[..gtsub], &[8, 4]);
    assert!(data[gtsub..].iter().all(|x| x & 0b11 != 0));
    let mut all = data.to_vec();
    all.sort();
    assert_eq!(all, vec![1, 2, 3, 4, 5, 6, 7, 8, 9, 257]);
}

#[test]
fn indices() {
    let mut seed = 7777777_u64;
    let midval: u8 = 128;
    let v1 = ranv_u8(20, &mut seed);
    let v2 = ranv_u8(20, &mut seed);
    let mut reference = v1.clone();
    reference.sort();
    let mut reversed = reference.clone();
    reversed.reverse();

    let mm = v1.minmax();
    assert_eq!(mm.min, reference[0]);
    assert_eq!(mm.max, reference[19]);
    assert_eq!(v1[mm.minindex], mm.min);
    assert_eq!(v1[mm.maxindex], mm.max);
    assert_eq!(v1.minmaxt(), (reference[0], reference[19]));
    assert_eq!(v2.minmaxt(), (*v2.iter().min().unwrap(), *v2.iter().max().unwrap()));

    let (lset, eqset, gset) = v1.partition(midval);
    assert!(lset.iter().all(|x| *x < midval));
    assert!(eqset.iter().all(|x| *x == midval));
    assert!(gset.iter().all(|x| *x > midval));
    assert_eq!(lset.len() + eqset.len() + gset.len(), 20);

    assert_eq!(v1.sortm(true), reference);
    let mut vm = v1.clone();
    vm.muthashsort(|&t| t as u64);
    assert_eq!(vm, reference);
    vm = v1.clone();
    vm.mutisort(0..v1.len(), |a, b| b.cmp(a));
    assert_eq!(vm, reversed);

    let v1ranks = v1.rank(true);
    let v1ranksd = v1.rank(false);
    let sortindex = v1.mergesort_indexed();
    // sorted via ranking
    assert_eq!(v1ranks.invindex().unindex(&v1, true), reference);
    // symmetry
    assert_eq!(v1ranks.complindex().complindex(), v1ranks);
    // ranks from a sort index
    assert_eq!(sortindex.invindex(), v1ranks);
    assert_eq!(v1.hashsort_indexed(|&t| t as u64).unindex(&v1, true), reference);
    // reversed ranks
    assert_eq!(sortindex.complindex().invindex(), v1ranks.revs());
    // descending ranks are not the ranks reversed: they are the complement
    assert_eq!(v1ranksd, v1ranks.complindex());
    assert_eq!(sortindex.invindex().complindex(), v1ranksd);
    assert_eq!(sortindex.revs().invindex(), v1ranksd);
    // the descending sort index
    assert_eq!(v1ranksd.invindex(), sortindex.revs());
    assert_eq!(v1ranks.complindex().invindex(), sortindex.revs());
    // ranks back to the sort index
    assert_eq!(v1ranks.invindex(), sortindex);
    assert_eq!(v1ranksd.complindex().invindex(), sortindex);
    // descending data, in every way
    assert_eq!(v1.sortm(true).revs(), reversed);
    assert_eq!(v1.sortm(false), reversed);
    assert_eq!(v1.sorth(|&t| t as u64, false), reversed);
    assert_eq!(sortindex.unindex(&v1, false), reversed);
    assert_eq!(v1.hashsort_indexed(|&t| t as u64).unindex(&v1, false), reversed);
    assert_eq!(sortindex.revs().unindex(&v1, true), reversed);
    assert_eq!(sortindex.invindex().complindex().invindex().unindex(&v1, true), reversed);
    assert_eq!(v1.rank(true).complindex().invindex().unindex(&v1, true), reversed);
    // rank correlation
    let own = v1ranks.ucorrelation_terms(&v1ranks).unwrap();
    assert!(!own.negative);
    assert_eq!(own.covariance, own.variance_x);
    assert_eq!(own.variance_x, own.variance_y);
    let other = v1ranks.ucorrelation_terms(&v2.rank(true)).unwrap();
    assert!(other.covariance <= own.covariance);
}

#[test]
fn vecops() {
    let mut seed = 555555_u64;
    let midval: u8 = 128;
    let v1 = ranv_u8(20, &mut seed);
    let v2 = ranv_u8(20, &mut seed);
    let (vm, mut vi) = v1.merge_indexed(&v1.mergesort_indexed(), &v2, &v2.mergesort_indexed());
    assert_eq!(vm, [v1.clone(), v2.clone()].concat());
    let mut reference = vm.clone();
    reference.sort();
    for val in [89u8, 128, 199] {
        let count = reference.iter().filter(|x| **x == val).count();
        assert_eq!(vm.occurs(val), count);
        assert_eq!(vm.revs().occurs(val), count);
    }
    let mut sorted = vi.unindex(&vm, true);
    assert_eq!(sorted, reference);
    let first = reference.iter().position(|x| *x >= 199).unwrap_or(reference.len());
    let last = reference.iter().position(|x| *x > 199).unwrap_or(reference.len());
    assert_eq!((0..sorted.len()).binary_all(|probe| sorted[probe].cmp(&199)), first..last);
    assert_eq!(sorted.binsearch(&199), first..last);

    let mid_first = reference.iter().position(|x| *x >= midval).unwrap_or(reference.len());
    let mid_last = reference.iter().position(|x| *x > midval).unwrap_or(reference.len());
    assert_eq!(vm.binsearch_indexed(&vi, &midval), mid_first..mid_last);
    if mid_first < reference.len() {
        // the nearest item that is equal or greater
        assert_eq!(vm[vi[vm.binsearch_indexed(&vi, &midval).start]], reference[mid_first]);
    }
    assert_eq!(sorted.member(199, true), if first < last { Some(first) } else { None });
    assert_eq!(sorted.member(199, false), if first < last { Some(last - 1) } else { None });

    let sorteddesc = vi.unindex(&vm, false);
    vi.mutrevs();
    let n = sorteddesc.len();
    assert_eq!(
        (0..n).binary_all(|probe| 199.cmp(&sorteddesc[probe])),
        sorteddesc.binsearch(&199)
    );
    assert_eq!(sorteddesc.binsearch(&199), n - last..n - first);
    assert_eq!(
        (0..n).binary_all(|probe| midval.partial_cmp(&vm[vi[probe]]).expect("comparison failed")),
        vm.binsearch_indexed(&vi, &midval)
    );
    assert_eq!(vm.binsearch_indexed(&vi, &midval), n - mid_last..n - mid_first);

    // the index now descends: set algebra wants it ascending again
    vi.mutrevs();
    let common = vm.intersect_indexed(&vi, &v1, &v1.mergesort_indexed());
    assert_eq!(common, v1.sortm(true));
    let rest = vm.diff_indexed(&vi, &v1, &v1.mergesort_indexed());
    assert_eq!(rest, v2.sortm(true));
    let unique = sorted.sansrepeat();
    sorted.dedup();
    assert_eq!(unique, sorted);
}

#[test]
fn text() {
    let sentence = "Humpty Dumpty sat on a wall \
        Humpty Dumpty had a great fall \
        and all the king's horses and all the king's men \
        could not put Humpty together again";
    let v = sentence.split(' ').collect::<Vec<_>>();
    let mut sorted = v.sorth(|&s| s.len() as u64, true);
    assert!(sorted.windows(2).all(|w| w[0].len() <= w[1].len()));
    assert_eq!(
        (0..sorted.len()).binary_all(|probe| sorted[probe].len().partial_cmp(&8).unwrap()),
        27..28
    );
    assert_eq!(sorted[27], "together");
    sorted = v.sortm(true);
    let mut reference = v.clone();
    reference.sort();
    assert_eq!(sorted, reference);
    assert_eq!(
        (0..sorted.len()).binary_all(|probe| sorted[probe].partial_cmp("Humpty").unwrap()),
        2..5
    );
    assert_eq!(
        (5..sorted.len()).binary_all(|probe| sorted[probe].partial_cmp("Humpty").unwrap()),
        5..5
    );
    assert_eq!(
        (0..sorted.len()).binary_all(|probe| sorted[probe].partial_cmp("the").unwrap()),
        24..26
    );
    assert_eq!((0..24).binary_all(|probe| sorted[probe].partial_cmp("the").unwrap()), 24..24);
    assert_eq!(
        (0..sorted.len()).binary_all(|probe| sorted[probe].partial_cmp("queen's").unwrap()),
        23..23
    );
    sorted.dedup();
    assert_eq!(sorted, v.sortm(true).sansrepeat());

    let mut dsorted = v.sortm(false);
    reference.reverse();
    assert_eq!(dsorted, reference);
    let n = dsorted.len();
    assert_eq!(
        (0..n).binary_all(|probe| "Humpty".partial_cmp(dsorted[probe]).unwrap()),
        n - 5..n - 2
    );
    assert_eq!((0..22).binary_all(|probe| "Humpty".partial_cmp(dsorted[probe]).unwrap()), 22..22);
    assert_eq!((0..n).binary_all(|probe| "the".partial_cmp(dsorted[probe]).unwrap()), 2..4);
    assert_eq!((5..n).binary_all(|probe| "the".partial_cmp(dsorted[probe]).unwrap()), 5..5);
    assert_eq!((0..n).binary_all(|probe| "queen's".partial_cmp(dsorted[probe]).unwrap()), 5..5);
    assert_eq!(dsorted.binsearch(&"Humpty"), n - 5..n - 2);
    dsorted.dedup();
    assert_eq!(dsorted, v.sortm(false).sansrepeat());
}

#[test]
fn sorts() {
    let mut seed = 0x9E3779B97F4A7C15_u64;
    for size in [10usize, 119, 120, 1000, 5011] {
        let v = ranv_u8(size, &mut seed);
        let mut reference = v.clone();
        reference.sort_unstable();
        assert_eq!(v.sortm(true), reference);
        assert_eq!(v.sorth(|&t| t as u64, true), reference);
        assert_eq!(v.mergesort_indexed().unindex(&v, true), reference);
        assert_eq!(v.hashsort_indexed(|&t| t as u64).unindex(&v, true), reference);
        let mut m = v.clone();
        m.muthashsort(|&t| t as u64);
        assert_eq!(m, reference);
        let mut m = v.clone();
        m.mutisort(0..v.len(), |a, b| a.cmp(b));
        assert_eq!(m, reference);
        assert_eq!(v.keyindex(|&t| t as u64, true).unindex(&v, true), reference);
    }
}
