use outliers::fences::thresholds_from_quartiles;
use outliers::outliers::label;
use outliers::quartiles::{quartiles, sort};
use outliers::{ClassifyError, Label, Outliers};

const NONE: [i64; 0] = [];

/// The boxplot rule in floating point, as a benchmark harness would run it.
fn percentile(sorted: &[f64], pct: f64) -> f64 {
    if sorted.len() == 1 {
        return sorted[0];
    }
    if pct == 100.0 {
        return sorted[sorted.len() - 1];
    }
    let rank = (pct / 100.0) * (sorted.len() - 1) as f64;
    let lrank = rank.floor();
    let d = rank - lrank;
    let n = lrank as usize;
    sorted[n] + (sorted[n + 1] - sorted[n]) * d
}

fn float_buckets(sample: &[i64]) -> (Vec<Vec<i64>>, [f64; 4]) {
    let mut sorted: Vec<f64> = sample.iter().map(|&v| v as f64).collect();
    sorted.sort_by(|a, b| a.partial_cmp(b).unwrap());
    let q1 = percentile(&sorted, 25.0);
    let q3 = percentile(&sorted, 75.0);
    let iqr = q3 - q1;
    let lost = q1 - 3.0 * iqr;
    let lomt = q1 - 1.5 * iqr;
    let himt = q3 + 1.5 * iqr;
    let hist = q3 + 3.0 * iqr;
    let mut buckets = vec![Vec::new(), Vec::new(), Vec::new(), Vec::new(), Vec::new()];
    for &v in sample {
        let value = v as f64;
        if value < lost {
            buckets[0].push(v);
        } else if value < lomt {
            buckets[1].push(v);
        } else if value > hist {
            buckets[4].push(v);
        } else if value > himt {
            buckets[3].push(v);
        } else {
            buckets[2].push(v);
        }
    }
    (buckets, [lost, lomt, himt, hist])
}

fn pseudo_random(seed: &mut u64) -> u64 {
    *seed = seed.wrapping_mul(6364136223846793005).wrapping_add(1442695040888963407);
    *seed >> 33
}

#[test]
fn one_far_value_is_a_severe_high_outlier() {
    let sample = [1, 2, 3, 4, 5, 6, 7, 8, 9, 100];
    let o = Outliers::classify(&sample).unwrap();
    assert_eq!(o.high_severe(), [100]);
    assert_eq!(o.high_mild(), NONE);
    assert_eq!(o.low_mild(), NONE);
    assert_eq!(o.low_severe(), NONE);
    assert_eq!(o.normal(), [1, 2, 3, 4, 5, 6, 7, 8, 9]);
    // Q1 = 3.25, Q3 = 7.75, IQR = 4.5: -10.25, -3.5, 14.5 and 21.25 in eighths.
    assert_eq!(o.thresholds(), (-82, -28, 116, 170));
    assert_eq!(quartiles(&sample), Some((13, 22, 31)));
}

#[test]
fn equal_values_are_all_normal() {
    let o = Outliers::classify(&[1, 1, 1, 1]).unwrap();
    assert_eq!(o.normal(), [1, 1, 1, 1]);
    assert_eq!(o.high_severe(), NONE);
    assert_eq!(o.high_mild(), NONE);
    assert_eq!(o.low_mild(), NONE);
    assert_eq!(o.low_severe(), NONE);
    assert_eq!(o.thresholds(), (8, 8, 8, 8));
    assert_eq!(o.report(), None);
}

#[test]
fn empty_sample_is_refused() {
    assert_eq!(Outliers::classify(&[]), Err(ClassifyError::EmptySample));
    assert_eq!(quartiles(&[]), None);
}

#[test]
fn small_samples_are_classified() {
    let one = Outliers::classify(&[5]).unwrap();
    assert_eq!(one.normal(), [5]);
    assert_eq!(one.thresholds(), (40, 40, 40, 40));
    let two = Outliers::classify(&[3, 1]).unwrap();
    assert_eq!(two.normal(), [3, 1]);
    assert_eq!(two.thresholds(), (-12, 0, 32, 44));
    let three = Outliers::classify(&[7, -2, 4]).unwrap();
    assert_eq!(three.normal(), [7, -2, 4]);
    assert_eq!(three.thresholds(), (-100, -46, 98, 152));
    assert_eq!(quartiles(&[7, -2, 4]), Some((4, 16, 22)));
}

#[test]
fn quartiles_interpolate_between_neighbours() {
    // 1.75, 2.5 and 3.25 in quarters.
    assert_eq!(quartiles(&[4, 1, 3, 2]), Some((7, 10, 13)));
    assert_eq!(quartiles(&[5]), Some((20, 20, 20)));
    assert_eq!(quartiles(&[3, 1]), Some((6, 8, 10)));
    assert_eq!(quartiles(&[1, 2, 3, 4, 5]), Some((8, 12, 16)));
}

#[test]
fn quartiles_of_extreme_values_do_not_overflow() {
    assert_eq!(
        quartiles(&[i64::MIN, i64::MAX]),
        Some((-18446744073709551617, -2, 18446744073709551613))
    );
    let o = Outliers::classify(&[i64::MIN, i64::MAX]).unwrap();
    assert_eq!(
        o.thresholds(),
        (
            -258254417031933722614,
            -147573952589676412924,
            147573952589676412916,
            258254417031933722606
        )
    );
    assert_eq!(o.normal(), [i64::MIN, i64::MAX]);
    let p = Outliers::classify(&[i64::MAX, i64::MAX, i64::MAX, i64::MIN]).unwrap();
    assert_eq!(p.low_mild(), [i64::MIN]);
    assert_eq!(p.normal(), [i64::MAX, i64::MAX, i64::MAX]);
    assert_eq!(
        p.thresholds(),
        (
            -73786976294838206464,
            -18446744073709551619,
            129127208515966861301,
            184467440737095516146
        )
    );
}

#[test]
fn sort_orders_and_keeps_every_value() {
    assert_eq!(sort(&[3, -1, 2, 3, 0, -1]), vec![-1, -1, 0, 2, 3, 3]);
    assert_eq!(sort(&[]), Vec::<i64>::new());
    assert_eq!(sort(&[i64::MAX, i64::MIN, 0]), vec![i64::MIN, 0, i64::MAX]);
}

#[test]
fn fences_follow_the_formulas() {
    // Q1 = 3.25 and Q3 = 7.75 in quarters.
    assert_eq!(thresholds_from_quartiles(13, 31), (-82, -28, 116, 170));
    assert_eq!(thresholds_from_quartiles(4, 4), (8, 8, 8, 8));
    assert_eq!(thresholds_from_quartiles(-7, 0), (-56, -35, 21, 42));
}

#[test]
fn value_on_the_high_mild_fence_is_normal() {
    let o = Outliers::classify(&[5, 12, 5, 2, 10, 6, 5, 5]).unwrap();
    // The fences are -1, 2, 10 and 13 ticks: 10 and 2 sit on a mild fence.
    assert_eq!(o.thresholds(), (-8, 16, 80, 104));
    assert_eq!(o.high_mild(), [12]);
    assert_eq!(o.normal(), [5, 5, 2, 10, 6, 5, 5]);
    assert_eq!(o.low_mild(), NONE);
    assert_eq!(o.high_severe(), NONE);
    assert_eq!(o.low_severe(), NONE);
}

#[test]
fn value_on_the_low_mild_fence_is_normal() {
    let o = Outliers::classify(&[20, 3, 17, 13, 15, 0, 14, 15]).unwrap();
    assert_eq!(o.thresholds(), (-36, 24, 184, 244));
    assert_eq!(o.low_mild(), [0]);
    assert_eq!(o.normal(), [20, 3, 17, 13, 15, 14, 15]);
}

#[test]
fn value_on_a_severe_fence_is_only_mild() {
    let high = Outliers::classify(&[6, 11, 14, 11, 11, 11, 20, 11]).unwrap();
    // The high severe fence is 14 ticks.
    assert_eq!(high.thresholds(), (70, 79, 103, 112));
    assert_eq!(high.high_severe(), [20]);
    assert_eq!(high.high_mild(), [14]);
    assert_eq!(high.low_severe(), [6]);
    assert_eq!(high.normal(), [11, 11, 11, 11, 11]);
    let low = Outliers::classify(&[9, 9, 9, 9, 12, 1, 9, 2]).unwrap();
    // The low severe fence is 2 ticks.
    assert_eq!(low.thresholds(), (16, 37, 93, 114));
    assert_eq!(low.low_severe(), [1]);
    assert_eq!(low.low_mild(), [2]);
    assert_eq!(low.high_mild(), [12]);
    assert_eq!(low.normal(), [9, 9, 9, 9, 9]);
}

#[test]
fn label_tests_are_strict_and_in_order() {
    let t = (-16, -8, 8, 16);
    assert_eq!(label(-3, t), Label::LowSevere);
    assert_eq!(label(-2, t), Label::LowMild);
    assert_eq!(label(-1, t), Label::Normal);
    assert_eq!(label(0, t), Label::Normal);
    assert_eq!(label(1, t), Label::Normal);
    assert_eq!(label(2, t), Label::HighMild);
    assert_eq!(label(3, t), Label::HighSevere);
    // Fences between whole ticks.
    assert_eq!(label(1, (0, 0, 7, 9)), Label::HighMild);
    assert_eq!(label(1, (0, 0, 6, 7)), Label::HighSevere);
    assert_eq!(label(1, (9, 12, 20, 20)), Label::LowSevere);
    assert_eq!(label(1, (8, 9, 20, 20)), Label::LowMild);
    // Crossed fences: the low tests come first, and severe before mild.
    assert_eq!(label(0, (1, 1, -1, -1)), Label::LowSevere);
    assert_eq!(label(0, (0, 1, -1, -1)), Label::LowMild);
    assert_eq!(label(0, (0, 0, -1, -2)), Label::HighSevere);
    assert_eq!(label(0, (0, 0, -1, 0)), Label::HighMild);
    assert_eq!(label(i64::MAX, (0, 0, 0, i128::MAX)), Label::HighMild);
    assert_eq!(label(i64::MIN, (i128::MIN, 0, 0, 0)), Label::LowMild);
}

#[test]
fn with_thresholds_keeps_the_order_of_the_sample() {
    let sample = [9, -9, 0, 5, -5, 9, 3, -3, -9, 5];
    let o = Outliers::with_thresholds(&sample, (-48, -24, 24, 48));
    assert_eq!(o.low_severe(), [-9, -9]);
    assert_eq!(o.low_mild(), [-5]);
    assert_eq!(o.normal(), [0, 3, -3]);
    assert_eq!(o.high_mild(), [5, 5]);
    assert_eq!(o.high_severe(), [9, 9]);
    assert_eq!(o.thresholds(), (-48, -24, 24, 48));
    let none = Outliers::with_thresholds(&[], (1, 2, 3, 4));
    assert_eq!(none.normal(), NONE);
    assert_eq!(none.thresholds(), (1, 2, 3, 4));
}

#[test]
fn buckets_hold_the_sample_exactly() {
    let mut seed = 7u64;
    for round in 0..200 {
        let n = 1 + (pseudo_random(&mut seed) % 40) as usize;
        let spread = 1 + pseudo_random(&mut seed) % 1000;
        let sample: Vec<i64> = (0..n)
            .map(|_| {
                let v = (pseudo_random(&mut seed) % spread) as i64 - (spread / 2) as i64;
                if pseudo_random(&mut seed) % 10 == 0 {
                    v * 50
                } else {
                    v
                }
            })
            .collect();
        let o = Outliers::classify(&sample).unwrap();
        let total = o.low_severe().len()
            + o.low_mild().len()
            + o.normal().len()
            + o.high_mild().len()
            + o.high_severe().len();
        assert_eq!(total, sample.len(), "round {}", round);
        let mut all: Vec<i64> = Vec::new();
        all.extend_from_slice(o.low_severe());
        all.extend_from_slice(o.low_mild());
        all.extend_from_slice(o.normal());
        all.extend_from_slice(o.high_mild());
        all.extend_from_slice(o.high_severe());
        all.sort();
        assert_eq!(all, sort(&sample));
        let t = o.thresholds();
        assert!(t.0 <= t.1 && t.1 <= t.2 && t.2 <= t.3);
        for (bucket, class) in [
            (o.low_severe(), Label::LowSevere),
            (o.low_mild(), Label::LowMild),
            (o.normal(), Label::Normal),
            (o.high_mild(), Label::HighMild),
            (o.high_severe(), Label::HighSevere),
        ] {
            let kept: Vec<i64> = sample.iter().copied().filter(|&v| label(v, t) == class).collect();
            assert_eq!(bucket, kept);
        }
    }
}

#[test]
fn classifying_twice_gives_the_same_aggregate() {
    let sample = [10, 12, 11, 13, 12, 11, 30, 12, 10, -50, 11, 12, 13, 19, 12, 2, 11, 12];
    let first = Outliers::classify(&sample).unwrap();
    let second = Outliers::classify(&sample).unwrap();
    assert_eq!(first, second);
    assert_eq!(first.thresholds(), second.thresholds());
    assert_eq!(first.normal(), second.normal());
}

#[test]
fn mixed_sample_fills_both_severe_buckets() {
    let sample = [
        10, 12, 11, 13, 12, 11, 30, 12, 10, -50, 11, 12, 13, 19, 12, 2, 11, 12, i64::MIN, i64::MAX,
    ];
    let o = Outliers::classify(&sample).unwrap();
    assert_eq!(o.thresholds(), (50, 68, 116, 134));
    assert_eq!(o.low_severe(), [-50, 2, i64::MIN]);
    assert_eq!(o.high_severe(), [30, 19, i64::MAX]);
    assert_eq!(o.normal(), [10, 12, 11, 13, 12, 11, 12, 10, 11, 12, 13, 12, 11, 12]);
    assert_eq!(o.low_mild(), NONE);
    assert_eq!(o.high_mild(), NONE);
}

#[test]
fn agrees_with_floating_point_on_whole_ticks() {
    let mut seed = 99u64;
    for _ in 0..300 {
        let n = 1 + (pseudo_random(&mut seed) % 25) as usize;
        let sample: Vec<i64> =
            (0..n).map(|_| (pseudo_random(&mut seed) % 2001) as i64 - 1000).collect();
        let o = Outliers::classify(&sample).unwrap();
        let (buckets, fences) = float_buckets(&sample);
        assert_eq!(o.low_severe(), buckets[0]);
        assert_eq!(o.low_mild(), buckets[1]);
        assert_eq!(o.normal(), buckets[2]);
        assert_eq!(o.high_mild(), buckets[3]);
        assert_eq!(o.high_severe(), buckets[4]);
        let t = o.thresholds();
        assert_eq!(t.0 as f64 / 8.0, fences[0]);
        assert_eq!(t.1 as f64 / 8.0, fences[1]);
        assert_eq!(t.2 as f64 / 8.0, fences[2]);
        assert_eq!(t.3 as f64 / 8.0, fences[3]);
    }
}
