use rand::Rng;
use stream_histogram::{Histogram, HistogramReport, Ratio};

fn value(r: Ratio) -> f64 {
    r.num as f64 / r.den as f64
}

fn ratio(num: i128, den: u64) -> Ratio {
    Ratio { num, den }
}

fn one_to_hundred() -> Histogram {
    let mut histogram = Histogram::new(10);
    for i in 1..=100 {
        histogram.add(i);
    }
    histogram
}

/// Population variance of the bins around their mean, in floating point.
fn bins_variance(histogram: &Histogram) -> Option<f64> {
    let mean = value(histogram.mean()?);
    let mut sum = 0.0;
    for (s, c) in histogram.bins() {
        let v = s as f64 / c as f64;
        sum += c as f64 * (v - mean) * (v - mean);
    }
    Some(sum / histogram.total() as f64)
}

#[test]
fn test_histogram() {
    let mut histogram = Histogram::new(10);
    assert_eq!(histogram.max_bins(), 10);
    histogram.add(1);
    assert_eq!(histogram.total(), 1);
    assert_eq!(histogram.bins().len(), 1);

    // same value located in same bin
    histogram.add(1);
    assert_eq!(histogram.total(), 2);
    assert_eq!(histogram.bins().len(), 1);

    histogram.add(2);
    assert_eq!(histogram.total(), 3);
    assert_eq!(histogram.bins().len(), 2);

    let histogram = one_to_hundred();
    assert_eq!(histogram.total(), 100);
    assert_eq!(histogram.bins().len(), 10);
    assert_eq!(histogram.max_bins(), 10);
}

#[test]
fn test_statistics_function() {
    let mut histogram = one_to_hundred();

    let mean = histogram.mean();
    assert_eq!(mean.is_none(), false);
    let mean = value(mean.unwrap());
    assert_eq!(mean, 50.5);

    let cdf = histogram.cdf(ratio(100, 1));
    assert_eq!(cdf.is_none(), false);
    let cdf = value(cdf.unwrap());
    assert_eq!(cdf, 1.0);
    let cdf = histogram.cdf(ratio(50, 1));
    assert_eq!(cdf.is_none(), false);
    let cdf = value(cdf.unwrap());
    assert_eq!(cdf, 0.45);

    let quantile = histogram.quantile(ratio(50, 100));
    assert_eq!(quantile.is_none(), false);
    let quantile = value(quantile.unwrap());
    assert_eq!(quantile, 52.5);

    let variance = bins_variance(&histogram);
    assert_eq!(variance.is_none(), false);
    let variance = variance.unwrap();
    assert_eq!(variance, 823.765);
    histogram.add(1);
    assert_eq!(histogram.total(), 101);
}

#[test]
fn test_report() {
    let histogram = one_to_hundred();
    let report = HistogramReport::new(&histogram);
    assert_eq!(report.is_none(), false);
    let report = report.unwrap();

    assert_eq!(report.max, 100);
    assert_eq!(report.min, 1);
    assert_eq!(value(report.mean), 50.5);
    assert_eq!(report.total, 100);
    assert_eq!(value(report.percent50), 52.5);
    assert_eq!(value(report.percent90), 86.0);
    assert_eq!(value(report.percent99), 96.5);
}

#[test]
fn report_method_matches_new() {
    let histogram = one_to_hundred();
    assert_eq!(histogram.report(), HistogramReport::new(&histogram));
}

#[test]
fn empty_histogram_has_no_statistics() {
    let histogram = Histogram::new(10);
    assert_eq!(histogram.total(), 0);
    assert!(histogram.mean().is_none());
    assert!(bins_variance(&histogram).is_none());
    assert!(histogram.cdf(ratio(0, 1)).is_none());
    assert!(histogram.quantile(ratio(1, 2)).is_none());
    assert!(histogram.report().is_none());
    assert_eq!(histogram.min(), None);
    assert_eq!(histogram.max(), None);
}

#[test]
fn equal_samples_share_one_bin() {
    let mut histogram = Histogram::new(10);
    histogram.add(1);
    histogram.add(1);
    assert_eq!(histogram.total(), 2);
    assert_eq!(histogram.bins(), vec![(2, 2)]);
}

#[test]
fn distinct_samples_get_two_bins() {
    let mut histogram = Histogram::new(10);
    histogram.add(1);
    histogram.add(2);
    assert_eq!(histogram.total(), 2);
    assert_eq!(histogram.bins().len(), 2);
}

#[test]
fn same_sample_many_times() {
    let mut histogram = Histogram::new(10);
    for _ in 0..1000 {
        histogram.add(-7);
    }
    assert_eq!(histogram.bins(), vec![(-7000, 1000)]);
    assert_eq!(histogram.total(), 1000);
}

#[test]
fn bins_come_out_ascending() {
    let mut histogram = Histogram::new(10);
    histogram.add(3);
    histogram.add(1);
    histogram.add(2);
    histogram.add(-5);
    assert_eq!(histogram.bins(), vec![(-5, 1), (1, 1), (2, 1), (3, 1)]);
}

#[test]
fn merge_takes_first_of_equal_gaps() {
    let mut histogram = Histogram::new(10);
    for i in 0..10 {
        histogram.add(i * 10);
    }
    assert_eq!(histogram.bins().len(), 10);
    // All gaps are equal: the first pair is merged.
    histogram.add(100);
    let bins = histogram.bins();
    assert_eq!(bins.len(), 10);
    assert_eq!(bins[0], (10, 2));
    assert_eq!(bins[1], (20, 1));
    assert_eq!(bins[9], (100, 1));
}

#[test]
fn merge_takes_smallest_gap() {
    let mut histogram = Histogram::new(10);
    for i in 0..10 {
        histogram.add(i * 10);
    }
    histogram.add(61);
    let bins = histogram.bins();
    assert_eq!(bins.len(), 10);
    assert_eq!(bins[6], (121, 2));
    assert_eq!(bins[7], (70, 1));
}

#[test]
fn min_and_max_survive_merges() {
    let mut histogram = Histogram::new(10);
    for i in 0..50 {
        histogram.add((i * 37) % 101 - 50);
    }
    assert_eq!(histogram.min(), Some(-50));
    assert_eq!(histogram.max(), Some(50));
    let bins = histogram.bins();
    assert_eq!(bins.len(), 10);
    assert!(value(ratio(bins[0].0, bins[0].1)) > -50.0);
}

#[test]
fn cdf_at_last_bin_is_one() {
    let mut histogram = Histogram::new(10);
    for i in 0..37 {
        histogram.add(i * i);
    }
    let bins = histogram.bins();
    let last = bins[bins.len() - 1];
    let cdf = histogram.cdf(ratio(last.0, last.1)).unwrap();
    assert_eq!(cdf.num, 37);
    assert_eq!(cdf.den, 37);
}

#[test]
fn cdf_below_every_bin_is_zero() {
    let histogram = one_to_hundred();
    let cdf = histogram.cdf(ratio(0, 1)).unwrap();
    assert_eq!(cdf.num, 0);
    assert_eq!(cdf.den, 100);
}

#[test]
fn small_capacity_acts_as_ten() {
    let mut a = Histogram::new(3);
    let mut b = Histogram::new(10);
    assert_eq!(a.max_bins(), 10);
    for i in 0..40 {
        let v = (i * 7919) % 113;
        a.add(v);
        b.add(v);
    }
    assert_eq!(a.bins(), b.bins());
    assert_eq!(a.total(), b.total());
    assert_eq!(a.report(), b.report());
}

#[test]
fn default_has_a_hundred_bins() {
    let histogram = Histogram::default();
    assert_eq!(histogram.max_bins(), 100);
    assert_eq!(histogram.total(), 0);
}

#[test]
fn quantile_ends() {
    let histogram = one_to_hundred();
    let bins = histogram.bins();
    assert_eq!(histogram.quantile(ratio(0, 1)), Some(ratio(bins[0].0, bins[0].1)));
    let last = bins[bins.len() - 1];
    assert_eq!(histogram.quantile(ratio(1, 1)), Some(ratio(last.0, last.1)));
}

#[test]
fn mean_is_exact_ratio() {
    let mut histogram = Histogram::new(10);
    histogram.add(1);
    histogram.add(2);
    assert_eq!(histogram.mean(), Some(ratio(3, 2)));
}

#[test]
fn extreme_samples() {
    let mut histogram = Histogram::new(10);
    for i in 0..30 {
        histogram.add(if i % 2 == 0 { i64::MAX - i } else { i64::MIN + i });
    }
    let bins = histogram.bins();
    assert_eq!(bins.len(), 10);
    for k in 1..bins.len() {
        let (a, b) = (bins[k - 1], bins[k]);
        assert!((a.0 as f64) / (a.1 as f64) <= (b.0 as f64) / (b.1 as f64));
    }
    assert_eq!(histogram.min(), Some(i64::MIN + 1));
    assert_eq!(histogram.max(), Some(i64::MAX));
    let total: u64 = bins.iter().map(|b| b.1).sum();
    assert_eq!(total, 30);
    assert!(histogram.mean().is_some());
}

#[test]
fn random_samples_keep_the_invariants() {
    let mut rng = rand::thread_rng();
    for capacity in [1usize, 10, 20, 40] {
        let mut histogram = Histogram::new(capacity);
        let mut lo = i64::MAX;
        let mut hi = i64::MIN;
        for n in 1..=2000u64 {
            let v: i64 = rng.gen_range(-1_000_000..1_000_000);
            lo = lo.min(v);
            hi = hi.max(v);
            histogram.add(v);
            let bins = histogram.bins();
            assert!(bins.len() <= histogram.max_bins());
            for k in 1..bins.len() {
                let (a, b) = (bins[k - 1], bins[k]);
                assert!(a.0 * (b.1 as i128) < b.0 * (a.1 as i128));
            }
            assert_eq!(bins.iter().map(|b| b.1).sum::<u64>(), n);
            assert_eq!(histogram.total(), n);
            assert_eq!(histogram.min(), Some(lo));
            assert_eq!(histogram.max(), Some(hi));
        }
    }
}

#[test]
fn ratio_equality_is_by_fields() {
    let histogram = one_to_hundred();
    let mean = histogram.mean().unwrap();
    assert_eq!(mean, ratio(5050, 100));
    assert_ne!(mean, ratio(101, 2));
    assert!(mean.same_value(&ratio(101, 2)));
    assert!(!mean.same_value(&ratio(51, 1)));
    assert!(ratio(-3, 2).same_value(&ratio(-6, 4)));
    assert!(!ratio(-3, 2).same_value(&ratio(-1, 1)));
}

#[test]
fn cdf_at_points_with_wide_denominators() {
    let histogram = one_to_hundred();
    let den = u64::MAX;
    // Just below 50 and exactly 100, with a 64-bit denominator.
    let below = ratio(50 * den as i128 - 1, den);
    assert_eq!(histogram.cdf(below).unwrap().num, 45);
    let top = ratio(100 * den as i128, den);
    assert_eq!(histogram.cdf(top).unwrap().num, 100);
}

#[test]
fn bins_lie_between_min_and_max() {
    let mut histogram = Histogram::new(10);
    for i in 0..200 {
        histogram.add((i * 7919) % 1009 - 500);
    }
    let lo = histogram.min().unwrap() as i128;
    let hi = histogram.max().unwrap() as i128;
    for (s, c) in histogram.bins() {
        assert!(lo * c as i128 <= s && s <= hi * c as i128);
    }
}
