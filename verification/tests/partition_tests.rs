use combsearch::errors::SearchError;
use combsearch::partition::partition;

#[test]
fn partition_covers_the_range_exactly() {
    for total in 0..50u64 {
        for workers in 1..10usize {
            let ranges = partition(total, workers).unwrap();
            assert_eq!(ranges.len(), workers);
            assert_eq!(ranges[0].0, 0);
            assert_eq!(ranges[workers - 1].1, total);
            for i in 0..workers {
                assert!(ranges[i].0 <= ranges[i].1);
                if i + 1 < workers {
                    // contiguous, hence disjoint
                    assert_eq!(ranges[i].1, ranges[i + 1].0);
                }
            }
            // every index is in exactly one range
            for x in 0..total {
                let holders =
                    ranges.iter().filter(|(lo, hi)| *lo <= x && x < *hi).count();
                assert_eq!(holders, 1, "index {} total {} workers {}", x, total, workers);
            }
        }
    }
}

#[test]
fn partition_sizes_differ_only_in_the_final_range() {
    let ranges = partition(10, 3).unwrap();
    assert_eq!(ranges, vec![(0, 3), (3, 6), (6, 10)]);
    let even = partition(12, 4).unwrap();
    assert_eq!(even, vec![(0, 3), (3, 6), (6, 9), (9, 12)]);
}

#[test]
fn small_totals_fill_only_the_final_range() {
    let ranges = partition(2, 4).unwrap();
    assert_eq!(ranges, vec![(0, 0), (0, 0), (0, 0), (0, 2)]);
}

#[test]
fn zero_workers_are_rejected() {
    assert_eq!(partition(10, 0).unwrap_err(), SearchError::InvalidConfig);
    assert_eq!(partition(0, 0).unwrap_err(), SearchError::InvalidConfig);
}
