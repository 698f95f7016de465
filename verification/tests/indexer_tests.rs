use combsearch::binomial::binomial;
use combsearch::errors::SearchError;
use combsearch::indexer::{rank, unrank};

/// Reference binomial coefficients via Pascal's triangle.
fn pascal(n: usize) -> Vec<Vec<u64>> {
    let mut rows: Vec<Vec<u64>> = Vec::new();
    for i in 0..=n {
        let mut row = vec![1u64; i + 1];
        for j in 1..i {
            row[j] = rows[i - 1][j - 1] + rows[i - 1][j];
        }
        rows.push(row);
    }
    rows
}

#[test]
fn binomial_matches_pascal_triangle() {
    let rows = pascal(30);
    for n in 0..=30u64 {
        for k in 0..=30u64 {
            let expected = if k <= n { rows[n as usize][k as usize] } else { 0 };
            assert_eq!(binomial(n, k), Ok(expected), "C({}, {})", n, k);
        }
    }
}

#[test]
fn binomial_overflow_is_reported() {
    // C(64, 32) still fits in a u64; C(70, 35) does not.
    assert!(binomial(64, 32).is_ok());
    assert_eq!(binomial(70, 35), Err(SearchError::Overflow));
    assert_eq!(binomial(u64::MAX, 2), Err(SearchError::Overflow));
}

#[test]
fn unrank_and_rank_are_mutual_inverses() {
    for n in 0..=8u64 {
        for k in 0..=n {
            let total = binomial(n, k).unwrap();
            for r in 0..total {
                let subset = unrank(n, k, r).unwrap();
                assert_eq!(subset.len() as u64, k);
                assert_eq!(rank(n, &subset), Ok(r), "n={} k={} r={}", n, k, r);
            }
        }
    }
}

#[test]
fn unrank_and_rank_inverse_spot_checks() {
    let total = binomial(30, 3).unwrap();
    assert_eq!(total, 4060);
    for r in [0, 1, 57, 2029, 4058, 4059] {
        let subset = unrank(30, 3, r).unwrap();
        assert_eq!(rank(30, &subset), Ok(r));
    }
}

#[test]
fn unrank_enumerates_each_subset_exactly_once() {
    for n in 0..=8u64 {
        for k in 0..=n {
            let total = binomial(n, k).unwrap();
            let mut seen: Vec<Vec<u64>> = Vec::new();
            for r in 0..total {
                let subset = unrank(n, k, r).unwrap();
                assert_eq!(subset.len() as u64, k);
                for w in 1..subset.len() {
                    assert!(subset[w - 1] < subset[w]);
                }
                for x in &subset {
                    assert!(*x < n);
                }
                assert!(!seen.contains(&subset), "duplicate subset for n={} k={}", n, k);
                seen.push(subset);
            }
            assert_eq!(seen.len() as u64, total);
        }
    }
}

#[test]
fn rank_then_unrank_restores_every_subset() {
    // subsets generated independently of the indexer, via bitmasks
    for n in 0..=8u64 {
        for mask in 0u32..(1 << n) {
            let subset: Vec<u64> = (0..n).filter(|i| mask & (1 << i) != 0).collect();
            let k = subset.len() as u64;
            let r = rank(n, &subset).unwrap();
            assert!(r < binomial(n, k).unwrap());
            assert_eq!(unrank(n, k, r).unwrap(), subset);
        }
    }
}

#[test]
fn unrank_rejects_out_of_range_ranks() {
    assert_eq!(unrank(5, 2, 10).unwrap_err(), SearchError::OutOfRange);
    assert_eq!(unrank(5, 2, u64::MAX).unwrap_err(), SearchError::OutOfRange);
    // k above n leaves an empty combination space
    assert_eq!(unrank(3, 5, 0).unwrap_err(), SearchError::OutOfRange);
    assert_eq!(unrank(0, 0, 1).unwrap_err(), SearchError::OutOfRange);
}

#[test]
fn unrank_reports_overflow_for_huge_spaces() {
    assert_eq!(unrank(70, 35, 0).unwrap_err(), SearchError::Overflow);
}

#[test]
fn rank_rejects_sequences_that_are_no_combination() {
    assert_eq!(rank(5, &vec![2, 1]).unwrap_err(), SearchError::OutOfRange);
    assert_eq!(rank(5, &vec![1, 1]).unwrap_err(), SearchError::OutOfRange);
    assert_eq!(rank(5, &vec![7]).unwrap_err(), SearchError::OutOfRange);
}

#[test]
fn rank_follows_lexicographic_order() {
    // subsets of {0..4} choose 2 in lexicographic order
    assert_eq!(rank(5, &vec![0, 1]), Ok(0));
    assert_eq!(rank(5, &vec![0, 4]), Ok(3));
    assert_eq!(rank(5, &vec![1, 2]), Ok(4));
    assert_eq!(rank(5, &vec![1, 3]), Ok(5));
    assert_eq!(rank(5, &vec![3, 4]), Ok(9));
    assert_eq!(rank(5, &vec![]), Ok(0));
}

#[test]
fn default_max_level_fills_the_gap() {
    assert_eq!(combsearch::catalog::default_max_level(), Some(100));
}
