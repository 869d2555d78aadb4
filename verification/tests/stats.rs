use apictl::bench::{
    histogram, mean_ns, min_ns, max_ns, percentile_ns, percentile_points, sorted_copy,
    Aggregates, IterationCounter,
};

/// 100 iterations claimed in total: every index below the total comes
/// out exactly once, then nothing.
#[test]
fn claims_are_exact() {
    let mut counter = IterationCounter::new(100);
    let mut seen = vec![false; 100];
    let mut claimed = 0;
    loop {
        match counter.claim() {
            Some(i) => {
                assert!(i < 100);
                assert!(!seen[i], "index {} claimed twice", i);
                seen[i] = true;
                claimed += 1;
            }
            None => break,
        }
    }
    assert_eq!(claimed, 100);
    assert!(seen.iter().all(|&b| b));
    assert!(counter.claim().is_none());
}

#[test]
fn zero_iterations() {
    let mut counter = IterationCounter::new(0);
    assert!(counter.claim().is_none());
}

#[test]
fn sorting() {
    let v: Vec<u64> = vec![5, 3, 9, 3, 1];
    let s = sorted_copy(&v);
    assert_eq!(s, vec![1, 3, 3, 5, 9]);
}

/// For a sorted list of length 10, the 50th percentile sits at index
/// 10 * 50 / 100 = 5.
#[test]
fn percentile_index() {
    let sorted: Vec<u64> = vec![10, 20, 30, 40, 50, 60, 70, 80, 90, 100];
    assert_eq!(percentile_ns(&sorted, 50), 60);
    assert_eq!(percentile_ns(&sorted, 99), 100);
    assert_eq!(percentile_ns(&sorted, 10), 20);
    assert_eq!(percentile_ns(&sorted, 0), 10);
}

#[test]
fn percentile_point_list() {
    let sorted: Vec<u64> = (1..=10).map(|i| i * 10).collect();
    let points = percentile_points(&sorted);
    let expected: Vec<(usize, u64)> = vec![
        (99, 100),
        (95, 100),
        (90, 100),
        (75, 80),
        (50, 60),
        (25, 30),
        (10, 20),
    ];
    assert_eq!(points, expected);
}

#[test]
fn mean_min_max() {
    let v: Vec<u64> = vec![2, 4, 9];
    assert_eq!(mean_ns(&v), 5);
    assert_eq!(min_ns(&v), 2);
    assert_eq!(max_ns(&v), 9);
}

#[test]
fn aggregates_record() {
    let mut agg = Aggregates::new();
    agg.record(200, 15);
    agg.record(200, 25);
    agg.record(404, 35);
    assert_eq!(agg.durations_list(), &vec![15, 25, 35]);
    let codes = agg.status_list();
    assert_eq!(codes.len(), 2);
    assert_eq!(codes[0], (200, 2));
    assert_eq!(codes[1], (404, 1));
}

#[test]
fn histogram_buckets() {
    // range 0..100 over 10 bins: bin size 10
    let values: Vec<u64> = vec![0, 5, 10, 55, 99, 100];
    let (ranges, counts) = histogram(&values, 10);
    assert_eq!(ranges.len(), 10);
    assert_eq!(counts.len(), 10);
    assert_eq!(ranges[0], (0, 10));
    assert_eq!(ranges[9], (90, 100));
    assert_eq!(counts[0], 2); // 0 and 5
    assert_eq!(counts[1], 1); // 10
    assert_eq!(counts[5], 1); // 55
    assert_eq!(counts[9], 2); // 99 and 100 (the top lands in the last bucket)
    let total: usize = counts.iter().sum();
    assert_eq!(total, values.len());
}

#[test]
fn histogram_narrow_range() {
    // a range smaller than the bucket count: the width clamps to one
    // and every sample is still counted
    let values: Vec<u64> = vec![5, 5, 6, 5];
    let (ranges, counts) = histogram(&values, 10);
    assert_eq!(ranges[0], (5, 6));
    assert_eq!(counts[0], 3);
    assert_eq!(counts[1], 1);
    let total: usize = counts.iter().sum();
    assert_eq!(total, values.len());
}
