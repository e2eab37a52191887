//! Vector algebra and one-dimensional statistics on concrete fixed-point
//! values.  One fixed-point unit is `SCALE`.

use rstats::SCALE;
use rstats::StatsError;
use rstats::stats::{amean, ameanstd, median};
use rstats::vecops::{dotp, smult, vadd, vdist, vdistsq, vinverse, vmag, vmagsq, vsub, vunit};

fn s(x: i64) -> i64 {
    x * SCALE
}

#[test]
fn vadd_vsub_exact() {
    let a = vec![s(1), s(2), s(3)];
    let b = vec![s(4), s(5), s(6)];
    assert_eq!(vadd(&a, &b).unwrap(), vec![s(5), s(7), s(9)]);
    assert_eq!(vsub(&b, &a).unwrap(), vec![s(3), s(3), s(3)]);
}

#[test]
fn vadd_dimension_mismatch() {
    let a = vec![s(1), s(2)];
    let b = vec![s(1)];
    assert_eq!(vadd(&a, &b).unwrap_err(), StatsError::DimensionMismatch);
    assert_eq!(vsub(&a, &b).unwrap_err(), StatsError::DimensionMismatch);
    assert_eq!(dotp(&a, &b).unwrap_err(), StatsError::DimensionMismatch);
    assert_eq!(vdist(&a, &b).unwrap_err(), StatsError::DimensionMismatch);
    assert_eq!(vdistsq(&a, &b).unwrap_err(), StatsError::DimensionMismatch);
}

#[test]
fn smult_scales_by_fixed_point_factor() {
    // 2.5 in fixed point is 5 * SCALE / 2
    let a = vec![s(2), -s(4)];
    let half = SCALE / 2;
    let r = smult(&a, 5 * half);
    assert_eq!(r, vec![s(5), -s(10)]);
}

#[test]
fn dot_product_and_magnitudes() {
    let a = vec![s(3), s(4)];
    // dot of a vector with itself is the squared magnitude
    assert_eq!(dotp(&a, &a).unwrap(), (s(3) as i128).pow(2) + (s(4) as i128).pow(2));
    assert_eq!(vmagsq(&a), 25 * (SCALE as i128) * (SCALE as i128));
    // 3-4-5 triangle: the magnitude is exact
    assert_eq!(vmag(&a), s(5));
    let b = vec![s(0), s(0)];
    assert_eq!(vdist(&a, &b).unwrap(), s(5));
    assert_eq!(vdistsq(&a, &b).unwrap(), 25 * (SCALE as i128) * (SCALE as i128));
}

#[test]
fn unit_vector_exact_and_degenerate() {
    let a = vec![s(3), s(4)];
    let u = vunit(&a).unwrap();
    // coordinates 3/5 and 4/5 of one, exactly representable in units
    assert_eq!(u, vec![3 * SCALE / 5, 4 * SCALE / 5]);
    let z = vec![0, 0];
    assert_eq!(vunit(&z).unwrap_err(), StatsError::DegenerateVector);
}

#[test]
fn vinverse_reciprocal_and_degenerate() {
    // reciprocal of 2.0 is 0.5; of -4.0 is -0.25
    let a = vec![s(2), -s(4)];
    assert_eq!(vinverse(&a).unwrap(), vec![SCALE / 2, -SCALE / 4]);
    let z = vec![s(1), 0];
    assert_eq!(vinverse(&z).unwrap_err(), StatsError::DegenerateVector);
}

#[test]
fn amean_exact_mean_of_consecutive() {
    let v: Vec<i64> = (1..=14).map(s).collect();
    // mean of 1..14 is 7.5, exactly representable
    assert_eq!(amean(&v).unwrap(), 15 * SCALE / 2);
    let e: Vec<i64> = vec![];
    assert_eq!(amean(&e).unwrap_err(), StatsError::EmptyInput);
}

#[test]
fn ameanstd_mean_and_floor_sqrt_variance() {
    let v: Vec<i64> = (1..=14).map(s).collect();
    let ms = ameanstd(&v).unwrap();
    assert_eq!(ms.mean, 15 * SCALE / 2);
    // variance of 1..14 is 16.25 in squared units; the standard deviation
    // is the integer square root of the scaled variance
    let var: i128 = 65 * (SCALE as i128) * (SCALE as i128) / 4;
    let sd = ms.std as i128;
    assert!(sd * sd <= var);
    assert!(var < (sd + 1) * (sd + 1));
    let e: Vec<i64> = vec![];
    assert_eq!(ameanstd(&e).unwrap_err(), StatsError::EmptyInput);
}

#[test]
fn median_and_quartiles_of_shuffled_sample() {
    // a shuffled 1..14: the result must come from the sorted order
    let v: Vec<i64> = vec![7, 1, 14, 3, 9, 2, 11, 5, 13, 4, 10, 6, 12, 8]
        .into_iter()
        .map(s)
        .collect();
    let m = median(&v).unwrap();
    assert_eq!(m.median, 15 * SCALE / 2);
    assert_eq!(m.lquartile, s(4));
    assert_eq!(m.uquartile, s(11));
    let e: Vec<i64> = vec![];
    assert_eq!(median(&e).unwrap_err(), StatsError::EmptyInput);
}

#[test]
fn median_of_odd_sample_is_middle_value() {
    let v: Vec<i64> = vec![s(5), s(1), s(3)];
    let m = median(&v).unwrap();
    assert_eq!(m.median, s(3));
}
