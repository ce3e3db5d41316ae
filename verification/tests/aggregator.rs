use proxy_client::aggregator::{aggregate, summarize, AggregationError, Aggregator, Summary};

fn ascending(from: u64, to: u64) -> Vec<u64> {
    let mut samples = Vec::new();
    let mut v = from;
    while v <= to {
        samples.push(v);
        v += 1;
    }
    samples
}

#[test]
fn empty_aggregator_has_no_data() {
    let a = Aggregator::new();
    assert_eq!(a.count(), 0);
    assert_eq!(a.minimum(), Err(AggregationError::NoData));
    assert_eq!(a.maximum(), Err(AggregationError::NoData));
    assert_eq!(a.mean(), Err(AggregationError::NoData));
    assert_eq!(a.percentile(500), Err(AggregationError::NoData));
    assert_eq!(a.summary(), Err(AggregationError::NoData));
}

#[test]
fn empty_aggregator_reports_no_data_before_range() {
    let a = Aggregator::new();
    assert_eq!(a.percentile(1001), Err(AggregationError::NoData));
}

#[test]
fn percentile_above_hundred_percent_is_out_of_range() {
    let a = aggregate(&vec![3, 4]);
    assert_eq!(a.percentile(1001), Err(AggregationError::OutOfRange));
    assert_eq!(a.percentile(u16::MAX), Err(AggregationError::OutOfRange));
    assert_eq!(a.percentile(1000), Ok(4));
}

#[test]
fn single_sample_is_every_statistic() {
    let a = aggregate(&vec![42]);
    assert_eq!(
        a.summary(),
        Ok(Summary {
            count: 1,
            minimum: 42,
            maximum: 42,
            mean: 42,
            p50: 42,
            p90: 42,
            p99: 42,
            p999: 42,
        })
    );
}

#[test]
fn uniform_samples_give_uniform_summary() {
    let samples = vec![10u64; 15];
    assert_eq!(
        summarize(&samples),
        Ok(Summary {
            count: 15,
            minimum: 10,
            maximum: 10,
            mean: 10,
            p50: 10,
            p90: 10,
            p99: 10,
            p999: 10,
        })
    );
}

#[test]
fn nearest_rank_on_one_to_thousand() {
    let samples = ascending(1, 1000);
    assert_eq!(
        summarize(&samples),
        Ok(Summary {
            count: 1000,
            minimum: 1,
            maximum: 1000,
            mean: 501,
            p50: 500,
            p90: 900,
            p99: 990,
            p999: 999,
        })
    );
}

#[test]
fn nearest_rank_rounds_the_rank_up() {
    let a = aggregate(&vec![5, 1, 3]);
    assert_eq!(a.percentile(333), Ok(1));
    assert_eq!(a.percentile(334), Ok(3));
    assert_eq!(a.percentile(500), Ok(3));
    assert_eq!(a.percentile(666), Ok(3));
    assert_eq!(a.percentile(667), Ok(5));
    assert_eq!(a.percentile(900), Ok(5));
}

#[test]
fn percentile_zero_is_the_minimum_and_thousand_the_maximum() {
    let a = aggregate(&vec![7, 2, 9, 4]);
    assert_eq!(a.percentile(0), Ok(2));
    assert_eq!(a.minimum(), Ok(2));
    assert_eq!(a.percentile(1000), Ok(9));
    assert_eq!(a.maximum(), Ok(9));
}

#[test]
fn mean_is_rounded_up() {
    assert_eq!(aggregate(&vec![1, 2]).mean(), Ok(2));
    assert_eq!(aggregate(&vec![1, 1, 2]).mean(), Ok(2));
    assert_eq!(aggregate(&vec![2, 4]).mean(), Ok(3));
    assert_eq!(aggregate(&vec![0, 0, 0]).mean(), Ok(0));
}

#[test]
fn largest_values_do_not_overflow() {
    let a = aggregate(&vec![u64::MAX, u64::MAX, u64::MAX - 1]);
    assert_eq!(a.mean(), Ok(u64::MAX));
    assert_eq!(a.maximum(), Ok(u64::MAX));
    assert_eq!(a.minimum(), Ok(u64::MAX - 1));
    assert_eq!(a.percentile(500), Ok(u64::MAX));
}

#[test]
fn repeated_values_share_a_bucket() {
    let mut a = Aggregator::new();
    for sample in [4u64, 4, 4, 9, 1, 9, 4] {
        a.record(sample);
    }
    assert_eq!(a.count(), 7);
    assert_eq!(a.percentile(100), Ok(1));
    assert_eq!(a.percentile(200), Ok(4));
    assert_eq!(a.percentile(500), Ok(4));
    assert_eq!(a.percentile(714), Ok(4));
    assert_eq!(a.percentile(715), Ok(9));
    assert_eq!(a.percentile(1000), Ok(9));
    assert_eq!(a.mean(), Ok(5));
}

#[test]
fn record_by_record_equals_aggregate() {
    let samples = vec![30u64, 10, 20, 10, 50, 40];
    let mut a = Aggregator::new();
    for &sample in &samples {
        a.record(sample);
    }
    assert_eq!(a.summary(), aggregate(&samples).summary());
    assert_eq!(a.summary(), summarize(&samples));
}

#[test]
fn percentiles_are_monotonic() {
    let samples = vec![13u64, 2, 2, 40, 7, 7, 7, 100, 1, 55, 3];
    let a = aggregate(&samples);
    let mut last = a.minimum().unwrap();
    let mut tenths = 0u16;
    while tenths <= 1000 {
        let value = a.percentile(tenths).unwrap();
        assert!(last <= value);
        last = value;
        tenths += 1;
    }
    assert!(last <= a.maximum().unwrap());
    let s = a.summary().unwrap();
    assert!(s.minimum <= s.p50 && s.p50 <= s.p90 && s.p90 <= s.p99 && s.p99 <= s.p999);
    assert!(s.p999 <= s.maximum);
    assert!(s.minimum <= s.mean && s.mean <= s.maximum);
}

#[test]
fn summary_does_not_depend_on_arrival_order() {
    let forward = vec![1u64, 5, 5, 9, 12, 12, 12, 30, 2];
    let mut backward = forward.clone();
    backward.reverse();
    let shuffled = vec![12u64, 1, 30, 5, 12, 2, 9, 5, 12];
    let expected = Summary {
        count: 9,
        minimum: 1,
        maximum: 30,
        mean: 10,
        p50: 9,
        p90: 30,
        p99: 30,
        p999: 30,
    };
    assert_eq!(summarize(&forward), Ok(expected));
    assert_eq!(summarize(&backward), Ok(expected));
    assert_eq!(summarize(&shuffled), Ok(expected));
}

#[test]
fn summary_matches_sorted_positions() {
    let samples = vec![80u64, 15, 23, 42, 8, 16, 4, 99, 61, 37];
    let mut sorted = samples.clone();
    sorted.sort();
    let a = aggregate(&samples);
    let n = sorted.len() as u64;
    let mut tenths = 0u64;
    while tenths <= 1000 {
        let mut rank = (n * tenths + 999) / 1000;
        if rank == 0 {
            rank = 1;
        }
        assert_eq!(a.percentile(tenths as u16), Ok(sorted[(rank - 1) as usize]));
        tenths += 1;
    }
}
