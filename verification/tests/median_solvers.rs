//! The three geometric-median solvers on concrete configurations, the
//! trend vector, and the convergence and invariance scenarios.

use rstats::SCALE;
use rstats::StatsError;
use rstats::median::MedianScheme;
use rstats::pointset::PointSet;

fn s(x: i64) -> i64 {
    x * SCALE
}

fn pset(pts: Vec<Vec<i64>>) -> PointSet {
    PointSet::new(pts).unwrap()
}

/// The eight vertices of the centered 4-dimensional orthoplex: the exact
/// geometric median is the origin.
fn orthoplex() -> PointSet {
    pset(vec![
        vec![s(1), 0, 0, 0],
        vec![0, s(1), 0, 0],
        vec![0, 0, s(1), 0],
        vec![0, 0, 0, s(1)],
        vec![-s(1), 0, 0, 0],
        vec![0, -s(1), 0, 0],
        vec![0, 0, -s(1), 0],
        vec![0, 0, 0, -s(1)],
    ])
}

// one hundredth of a thousandth of one, rounded up: the 1e-5 tolerance
const EPS_1E5: i64 = 11;

#[test]
fn nmedian_orthoplex_converges_to_origin() {
    let p = orthoplex();
    let g = p.nmedian(EPS_1E5).unwrap();
    assert_eq!(g, vec![0, 0, 0, 0]);
    // the residual eccentricity magnitude at the result is within eps
    let e = p.eccnonmember(&g).unwrap();
    let magsq: i128 = e.iter().map(|&x| (x as i128) * (x as i128)).sum();
    assert!(magsq <= (EPS_1E5 as i128) * (EPS_1E5 as i128));
}

#[test]
fn nmedian_residual_nonincreasing_as_eps_decreases() {
    let p = orthoplex();
    let mut last: i128 = i128::MAX;
    for eps in [s(1) / 100, s(1) / 1000, s(1) / 10000, EPS_1E5] {
        let g = p.nmedian(eps).unwrap();
        let e = p.eccnonmember(&g).unwrap();
        let magsq: i128 = e.iter().map(|&x| (x as i128) * (x as i128)).sum();
        assert!(magsq <= last);
        last = magsq;
    }
    // the same on the planar cross
    let cross = pset(vec![vec![s(1), 0], vec![0, s(1)], vec![-s(1), 0], vec![0, -s(1)]]);
    let mut last2: i128 = i128::MAX;
    for eps in [s(1) / 100, s(1) / 1000, EPS_1E5] {
        let g = cross.nmedian(eps).unwrap();
        let e = cross.eccnonmember(&g).unwrap();
        let magsq: i128 = e.iter().map(|&x| (x as i128) * (x as i128)).sum();
        assert!(magsq <= last2);
        last2 = magsq;
    }
}

#[test]
fn nmedian_collinear_equals_classical_median() {
    // 1-D-embedded collinear points 1..7: the geometric median is the
    // classical median, 4
    let pts: Vec<Vec<i64>> = (1..=7).map(|i| vec![s(i)]).collect();
    let flat: Vec<i64> = (1..=7).map(s).collect();
    let p = pset(pts);
    let g = p.nmedian(100).unwrap();
    assert!((g[0] - s(4)).abs() <= 100);
    let m = rstats::stats::median(&flat).unwrap();
    assert_eq!(m.median, s(4));
}

#[test]
fn nmedian_all_coincident_is_degenerate() {
    let p = pset(vec![vec![s(2), s(2)], vec![s(2), s(2)]]);
    assert_eq!(p.nmedian(EPS_1E5).unwrap_err(), StatsError::DegenerateVector);
}

#[test]
fn firstpoint_weighted_seed() {
    // magnitudes 1 and 2: weights 1 and 1/2; seed (1*1 + 2*(1/2))/(3/2) = 4/3
    let p = pset(vec![vec![s(1)], vec![s(2)]]);
    let fp = p.firstpoint().unwrap();
    assert!((fp[0] - 4 * SCALE / 3).abs() <= 2);
    // a point at the origin is skipped
    let q = pset(vec![vec![0], vec![s(2)]]);
    assert_eq!(q.firstpoint().unwrap(), vec![s(2)]);
    // all points at the origin leave nothing to weigh
    let z = pset(vec![vec![0], vec![0]]);
    assert_eq!(z.firstpoint().unwrap_err(), StatsError::DegenerateVector);
}

#[test]
fn gmedian_two_point_secant_converges() {
    let p = pset(vec![
        vec![0, 0],
        vec![s(3), 0],
        vec![0, s(4)],
        vec![s(1), s(1)],
    ]);
    let g = p.gmedian(EPS_1E5).unwrap();
    assert_eq!(g.len(), 2);
    // the result lies inside the hull of the points
    assert!(g[0] >= 0 && g[0] <= s(3));
    assert!(g[1] >= 0 && g[1] <= s(4));
}

#[test]
fn gmedian_collinear_directions_not_convergent() {
    // on a line the two search directions are exactly parallel and the
    // two-point solve degenerates
    let p = pset(vec![vec![0], vec![s(2)], vec![s(3)]]);
    assert_eq!(p.gmedian(EPS_1E5).unwrap_err(), StatsError::NonConvergent);
}

#[test]
fn gmedian_symmetric_seed_is_degenerate() {
    // at a perfectly symmetric configuration the seed's eccentricity
    // vanishes: there is no search direction
    let p = orthoplex();
    assert_eq!(p.gmedian(EPS_1E5).unwrap_err(), StatsError::DegenerateVector);
}

/// An irregular twelve-point cloud in three dimensions, on which the
/// scalar secant converges.
fn cloud() -> PointSet {
    pset(vec![
        vec![10450556, 4285656, 6015227],
        vec![8892593, 486626, 7811851],
        vec![4178410, 869953, 2631528],
        vec![1899280, 6237657, 7869672],
        vec![4136805, 6388057, 9122793],
        vec![1710846, 9629135, 4183075],
        vec![220019, 3636122, 6847638],
        vec![4688936, 3054722, 6533673],
        vec![2677714, 1206814, 2328130],
        vec![10367081, 10359134, 7463104],
        vec![2125660, 2218633, 29777],
        vec![89139, 3514094, 3615174],
    ])
}

#[test]
fn smedian_scalar_secant_certifies_residual() {
    let p = cloud();
    let eps = s(1) / 1000;
    let g = p.smedian(eps).unwrap();
    // the scalar secant stops exactly when the eccentricity magnitude at
    // the returned point falls below eps
    let e = p.eccnonmember(&g).unwrap();
    let magsq: i128 = e.iter().map(|&x| (x as i128) * (x as i128)).sum();
    assert!(magsq < (eps as i128) * (eps as i128));
}

#[test]
fn geometric_median_dispatches_schemes() {
    let p = pset(vec![
        vec![0, 0],
        vec![s(3), 0],
        vec![0, s(4)],
        vec![s(1), s(1)],
    ]);
    let w = p.geometric_median(MedianScheme::Weighted, EPS_1E5).unwrap();
    assert_eq!(w, p.nmedian(EPS_1E5).unwrap());
    let t = p.geometric_median(MedianScheme::TwoPoint, EPS_1E5).unwrap();
    assert_eq!(t, p.gmedian(EPS_1E5).unwrap());
    let q = cloud();
    let eps = s(1) / 1000;
    let c = q.geometric_median(MedianScheme::Secant, eps).unwrap();
    assert_eq!(c, q.smedian(eps).unwrap());
}

#[test]
fn trend_of_set_against_itself_is_zero() {
    let pts: Vec<Vec<i64>> = vec![
        vec![0, 0],
        vec![s(3), 0],
        vec![0, s(4)],
        vec![s(1), s(1)],
    ];
    let a = pset(pts.clone());
    let b = pset(pts);
    let t = a.trend(EPS_1E5, &b).unwrap();
    assert_eq!(t, vec![0, 0]);
}

#[test]
fn trend_between_shifted_sets() {
    let a: Vec<Vec<i64>> = (1..=7).map(|i| vec![s(i)]).collect();
    let b: Vec<Vec<i64>> = (1..=7).map(|i| vec![s(i) + s(10)]).collect();
    let pa = pset(a);
    let pb = pset(b);
    let t = pa.trend(100, &pb).unwrap();
    assert!((t[0] - s(10)).abs() <= 200);
    // sets of different dimensions cannot be compared
    let pc = pset(vec![vec![s(1), s(1)]]);
    assert_eq!(pa.trend(100, &pc).unwrap_err(), StatsError::DimensionMismatch);
}

#[test]
fn median_translation_equivariance() {
    // translating all points translates the computed median with them,
    // within the fixed-point rounding of each run
    let pts = vec![vec![0], vec![s(1)], vec![s(2)], vec![s(3)], vec![s(10)]];
    let p = pset(pts.clone());
    let moved: Vec<Vec<i64>> = pts.iter().map(|q| vec![q[0] + s(5)]).collect();
    let pm = pset(moved);
    let g = p.nmedian(100).unwrap();
    let gm = pm.nmedian(100).unwrap();
    assert!((gm[0] - g[0] - s(5)).abs() <= 200);
}

#[test]
fn sortedeccs_sorted_magnitudes_with_median() {
    let line = pset(vec![vec![0], vec![s(1)], vec![s(2)], vec![s(3)], vec![s(10)]]);
    let (gm, up) = line.sortedeccs(true, 100).unwrap();
    assert_eq!(gm, line.nmedian(100).unwrap());
    assert_eq!(up, vec![0, SCALE / 2, SCALE / 2, SCALE, SCALE]);
    let (_, down) = line.sortedeccs(false, 100).unwrap();
    assert_eq!(down, vec![SCALE, SCALE, SCALE / 2, SCALE / 2, 0]);
}
