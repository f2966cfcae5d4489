use activity_classifier::features::{extract_features, Sample, FeatureVector};
use activity_classifier::stats::{series_stats, SeriesStats};

fn stats_of(values: &[i64]) -> SeriesStats {
    let v: Vec<i64> = values.to_vec();
    series_stats(&v)
}

#[test]
fn stats_of_small_series_match_the_formulas() {
    let st = stats_of(&[3, 1, 2, 5, 4]);
    assert_eq!(st.mean, 3);
    assert_eq!(st.min, 1);
    assert_eq!(st.max, 5);
    // squared deviations 0 + 4 + 1 + 4 + 1 = 10; 10 / 4 = 2; floor sqrt = 1
    assert_eq!(st.std_dev, 1);
    // thousandths of 1 / 3
    assert_eq!(st.coeff_var, 333);
    // sorted [1,2,3,4,5]: ranks fall exactly on the order statistics
    assert_eq!(st.p25, 2);
    assert_eq!(st.p75, 4);
}

#[test]
fn percentiles_interpolate_between_order_statistics() {
    let st = stats_of(&[0, 100]);
    assert_eq!(st.p25, 25);
    assert_eq!(st.p75, 75);
    assert_eq!(st.min, 0);
    assert_eq!(st.max, 100);
    assert_eq!(st.mean, 50);
}

#[test]
fn order_statistics_are_ordered_on_sample_series() {
    for series in [
        vec![5, -3, 8, 0, 0, 12, -7],
        vec![1],
        vec![-2, -2, -2],
        vec![1_000_000_000, -1_000_000_000, 3, 4],
    ] {
        let st = series_stats(&series);
        assert!(st.min <= st.p25);
        assert!(st.p25 <= st.p75);
        assert!(st.p75 <= st.max);
        assert!(st.min <= st.mean && st.mean <= st.max);
    }
}

#[test]
fn coefficient_of_variation_is_zero_whenever_the_mean_is_zero() {
    // the spread is not zero, but the zero-mean guard wins
    let st = stats_of(&[-1, 1]);
    assert_eq!(st.mean, 0);
    assert!(st.std_dev > 0);
    assert_eq!(st.coeff_var, 0);

    let st2 = stats_of(&[-500, 250, 250]);
    assert_eq!(st2.mean, 0);
    assert_eq!(st2.coeff_var, 0);
}

#[test]
fn single_sample_window_yields_the_degenerate_statistics() {
    // window [{1,0,0}]: every x statistic is 1 with no spread
    let w = vec![Sample { x: 1, y: 0, z: 0 }];
    let fv = extract_features(&w).unwrap();
    assert_eq!(fv.x.mean, 1);
    assert_eq!(fv.x.std_dev, 0);
    assert_eq!(fv.x.min, 1);
    assert_eq!(fv.x.max, 1);
    assert_eq!(fv.x.coeff_var, 0);
    assert_eq!(fv.x.p25, 1);
    assert_eq!(fv.x.p75, 1);
    // the magnitude of (1,0,0) is exactly 1
    assert_eq!(fv.mag.mean, 1);
    assert_eq!(fv.mag.std_dev, 0);
    // the zero axes are all zero, with the zero-mean guard
    assert_eq!(fv.y.mean, 0);
    assert_eq!(fv.y.coeff_var, 0);
    assert_eq!(fv.z.p75, 0);
}

#[test]
fn extraction_is_deterministic() {
    let w = vec![
        Sample { x: 31, y: -12, z: 900 },
        Sample { x: -44, y: 0, z: 17 },
        Sample { x: 5, y: 5, z: 5 },
    ];
    let a = extract_features(&w).unwrap();
    let b = extract_features(&w).unwrap();
    assert_eq!(a, b);
    assert_eq!(a.to_row(), b.to_row());
}

#[test]
fn empty_window_is_rejected_not_summarised() {
    let w: Vec<Sample> = Vec::new();
    assert!(extract_features(&w).is_err());
}

#[test]
fn row_order_is_the_fixed_wire_order() {
    let w = vec![Sample { x: 3, y: 4, z: 0 }];
    let fv = extract_features(&w).unwrap();
    let row = fv.to_row();
    assert_eq!(row.len(), 28);
    let expected = [
        fv.mag.mean,
        fv.mag.std_dev,
        fv.mag.min,
        fv.mag.max,
        fv.mag.coeff_var,
        fv.mag.p25,
        fv.mag.p75,
        fv.x.mean,
        fv.x.std_dev,
        fv.x.min,
        fv.x.max,
        fv.x.coeff_var,
        fv.x.p25,
        fv.x.p75,
        fv.y.mean,
        fv.y.std_dev,
        fv.y.min,
        fv.y.max,
        fv.y.coeff_var,
        fv.y.p25,
        fv.y.p75,
        fv.z.mean,
        fv.z.std_dev,
        fv.z.min,
        fv.z.max,
        fv.z.coeff_var,
        fv.z.p25,
        fv.z.p75,
    ];
    assert_eq!(row, expected.to_vec());
    // the magnitude of (3,4,0) is exactly 5
    assert_eq!(row[0], 5);
}

#[test]
fn feature_vectors_compare_by_value() {
    let a = FeatureVector {
        mag: SeriesStats { mean: 1, std_dev: 0, min: 1, max: 1, coeff_var: 0, p25: 1, p75: 1 },
        x: SeriesStats { mean: 1, std_dev: 0, min: 1, max: 1, coeff_var: 0, p25: 1, p75: 1 },
        y: SeriesStats { mean: 0, std_dev: 0, min: 0, max: 0, coeff_var: 0, p25: 0, p75: 0 },
        z: SeriesStats { mean: 0, std_dev: 0, min: 0, max: 0, coeff_var: 0, p25: 0, p75: 0 },
    };
    let w = vec![Sample { x: 1, y: 0, z: 0 }];
    assert_eq!(extract_features(&w).unwrap(), a);
}
