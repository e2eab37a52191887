//! Set-level statistics on concrete point sets: centroids, distance sums,
//! medoid and outlier, eccentricity vectors, and their summaries.

use rstats::SCALE;
use rstats::StatsError;
use rstats::pointset::PointSet;

fn s(x: i64) -> i64 {
    x * SCALE
}

fn pset(pts: Vec<Vec<i64>>) -> PointSet {
    PointSet::new(pts).unwrap()
}

#[test]
fn pointset_validation() {
    assert_eq!(PointSet::new(vec![]).unwrap_err(), StatsError::EmptyInput);
    assert_eq!(PointSet::new(vec![vec![]]).unwrap_err(), StatsError::EmptyInput);
    assert_eq!(
        PointSet::new(vec![vec![s(1)], vec![s(1), s(2)]]).unwrap_err(),
        StatsError::DimensionMismatch
    );
    assert!(PointSet::new(vec![vec![s(1)], vec![s(2)]]).is_ok());
}

#[test]
fn acentroid_is_per_coordinate_mean() {
    let p = pset(vec![vec![s(1), s(2)], vec![s(3), s(4)], vec![s(5), s(6)]]);
    assert_eq!(p.acentroid(), vec![s(3), s(4)]);
    // an exact half survives: mean of 1 and 2 is 1.5
    let q = pset(vec![vec![s(1)], vec![s(2)]]);
    assert_eq!(q.acentroid(), vec![3 * SCALE / 2]);
}

#[test]
fn hcentroid_reciprocal_of_summed_reciprocals() {
    // reciprocals 1 and 1/2 sum to 3/2; its reciprocal is 2/3
    let p = pset(vec![vec![s(1)], vec![s(2)]]);
    let h = p.hcentroid().unwrap();
    let expected = (SCALE as i128) * (SCALE as i128) / (3 * (SCALE as i128) / 2);
    assert_eq!(h, vec![expected as i64]);
    // a zero coordinate is degenerate
    let z = pset(vec![vec![s(1)], vec![0]]);
    assert_eq!(z.hcentroid().unwrap_err(), StatsError::DegenerateVector);
    // a zero reciprocal sum is degenerate too
    let c = pset(vec![vec![s(1)], vec![-s(1)]]);
    assert_eq!(c.hcentroid().unwrap_err(), StatsError::DegenerateVector);
}

#[test]
fn distsums_pairwise_symmetric_total() {
    // collinear points 0, 3, 9: pair distances 3, 9, 6
    let p = pset(vec![vec![0], vec![s(3)], vec![s(9)]]);
    let ds = p.distsums();
    assert_eq!(ds, vec![s(12), s(9), s(15)]);
    // the members' sums add up to twice the sum over unordered pairs
    let total: i64 = ds.iter().sum();
    assert_eq!(total, 2 * (s(3) + s(9) + s(6)));
    // and agree with the one-member form
    assert_eq!(p.distsuminset(0), s(12));
    assert_eq!(p.distsuminset(1), s(9));
    assert_eq!(p.distsuminset(2), s(15));
}

#[test]
fn medoid_minimum_outlier_maximum_first_occurrence() {
    // distance sums 6, 4, 6: the outlier tie breaks to the first index
    let p = pset(vec![vec![0], vec![s(2)], vec![s(4)]]);
    let (dm, mi, dout, oi) = p.medoid();
    assert_eq!((dm, mi), (s(4), 1));
    assert_eq!((dout, oi), (s(6), 0));
}

#[test]
fn dists_and_distsum_from_query() {
    let p = pset(vec![vec![0, 0], vec![s(3), s(4)]]);
    let q = vec![s(3), 0];
    let d = p.dists(&q).unwrap();
    assert_eq!(d, vec![s(3), s(4)]);
    assert_eq!(p.distsum(&q).unwrap(), s(7));
    let bad = vec![s(1)];
    assert_eq!(p.dists(&bad).unwrap_err(), StatsError::DimensionMismatch);
    assert_eq!(p.distsum(&bad).unwrap_err(), StatsError::DimensionMismatch);
}

#[test]
fn eccnonmember_sums_unit_vectors_and_skips_coincident() {
    let p = pset(vec![vec![s(1), 0], vec![-s(1), 0]]);
    // at the midpoint the two unit vectors cancel exactly
    let e = p.eccnonmember(&vec![0, 0]).unwrap();
    assert_eq!(e, vec![0, 0]);
    // a query point coincident with a member is skipped, not an error
    let e2 = p.eccnonmember(&vec![s(1), 0]).unwrap();
    assert_eq!(e2, vec![-SCALE, 0]);
    // scalar eccentricity divides the magnitude by the dimension
    let (sc, ev) = p.veccentr(&vec![s(1), 0]).unwrap();
    assert_eq!(ev, vec![-SCALE, 0]);
    assert_eq!(sc, SCALE / 2);
    assert_eq!(p.ecc(&vec![0, 0]).unwrap(), 0);
}

#[test]
fn eccentricities_antisymmetric_field() {
    let p = pset(vec![vec![0, 0], vec![s(1), 0]]);
    let field = p.eccentricities().unwrap();
    assert_eq!(field[0], vec![SCALE, 0]);
    assert_eq!(field[1], vec![-SCALE, 0]);
    // a duplicate member makes the field degenerate
    let dup = pset(vec![vec![0, 0], vec![0, 0]]);
    assert_eq!(dup.eccentricities().unwrap_err(), StatsError::DegenerateVector);
}

#[test]
fn eccentrinset_member_normalization() {
    // five collinear points: the end point sees four unit vectors one way
    let p = pset(vec![vec![0], vec![s(1)], vec![s(2)], vec![s(3)], vec![s(10)]]);
    assert_eq!(p.eccentrinset(0).unwrap(), SCALE);
    assert_eq!(p.eccentrinset(1).unwrap(), SCALE / 2);
    assert_eq!(p.eccentrinset(2).unwrap(), 0);
    let single = pset(vec![vec![s(1)]]);
    assert_eq!(single.eccentrinset(0).unwrap_err(), StatsError::EmptyInput);
    let dup = pset(vec![vec![s(1)], vec![s(1)]]);
    assert_eq!(dup.eccentrinset(0).unwrap_err(), StatsError::DegenerateVector);
}

#[test]
fn emedoid_and_medoid_agree_on_ring_disagree_on_line() {
    // a ring around a dense middle: both pick the center
    let ring = pset(vec![
        vec![0, 0],
        vec![s(4), 0],
        vec![0, s(4)],
        vec![-s(4), 0],
        vec![0, -s(4)],
    ]);
    let (_, mi, _, _) = ring.medoid();
    let (_, emi, _, _) = ring.emedoid().unwrap();
    assert_eq!(mi, 0);
    assert_eq!(emi, 0);
    // on a line with one far point the outliers diverge: total distance
    // singles out the far point, eccentricity ties the two ends and takes
    // the first
    let line = pset(vec![vec![0], vec![s(1)], vec![s(2)], vec![s(3)], vec![s(10)]]);
    let (_, lmi, _, loi) = line.medoid();
    let (_, lemi, _, leoi) = line.emedoid().unwrap();
    assert_eq!(lmi, 2);
    assert_eq!(lemi, 2);
    assert_eq!(loi, 4);
    assert_eq!(leoi, 0);
    assert_ne!(loi, leoi);
}

#[test]
fn mags_of_members() {
    let p = pset(vec![vec![s(3), s(4)], vec![0, 0]]);
    assert_eq!(p.mags(), vec![s(5), 0]);
}

#[test]
fn scalarecc_field_values() {
    let line = pset(vec![vec![0], vec![s(1)], vec![s(2)], vec![s(3)], vec![s(10)]]);
    let se = line.scalarecc().unwrap();
    assert_eq!(se, vec![SCALE, SCALE / 2, 0, SCALE / 2, SCALE]);
}

#[test]
fn moe_summarizes_member_eccentricities() {
    let line = pset(vec![vec![0], vec![s(1)], vec![s(2)], vec![s(3)], vec![s(10)]]);
    let (ms, md) = line.moe(11).unwrap();
    // eccentricities are [1, 1/2, 0, 1/2, 1] in units: mean 3/5
    assert_eq!(ms.mean, 3 * SCALE / 5);
    // the standard deviation is the floor square root of the variance
    let var: i128 = (SCALE as i128) * (SCALE as i128) / 2
        - (ms.mean as i128) * (ms.mean as i128);
    let sd = ms.std as i128;
    assert!(sd * sd <= var && var < (sd + 1) * (sd + 1));
    // sorted: [0, 1/2, 1/2, 1, 1]
    assert_eq!(md.median, SCALE / 2);
    assert_eq!(md.lquartile, SCALE / 2);
    assert_eq!(md.uquartile, SCALE);
    let single = pset(vec![vec![s(1)]]);
    assert_eq!(single.moe(11).unwrap_err(), StatsError::EmptyInput);
}

#[test]
fn translate_shifts_every_point() {
    let p = pset(vec![vec![s(1), s(2)], vec![s(3), s(4)]]);
    let t = p.translate(&vec![s(1), s(1)]).unwrap();
    assert_eq!(t, vec![vec![0, s(1)], vec![s(2), s(3)]]);
    assert_eq!(
        p.translate(&vec![s(1)]).unwrap_err(),
        StatsError::DimensionMismatch
    );
}

#[test]
fn extreme_coordinates_stay_within_bounds() {
    let c = rstats::COORD_LIMIT - 1;
    let p = pset(vec![vec![c], vec![-c]]);
    assert_eq!(p.distsums(), vec![2 * c, 2 * c]);
    let g = p.nmedian(11).unwrap();
    assert_eq!(g, vec![0]);
}

#[test]
fn distsums_matches_pairwise_double_sum_on_larger_set() {
    // a deterministic pseudo-random cloud, checked against the brute-force
    // pairwise double sum
    let mut state: u64 = 12345;
    let mut next = move || {
        state = state.wrapping_mul(6364136223846793005).wrapping_add(1442695040888963407);
        ((state >> 33) % (4 * SCALE as u64)) as i64 - 2 * SCALE
    };
    let mut pts: Vec<Vec<i64>> = Vec::new();
    for _ in 0..120 {
        pts.push(vec![next(), next(), next()]);
    }
    let p = pset(pts.clone());
    let ds = p.distsums();
    let mut total: i64 = 0;
    let mut pair_total: i64 = 0;
    for i in 0..pts.len() {
        total += ds[i];
        for j in 0..i {
            pair_total += rstats::vecops::vdist(&pts[i], &pts[j]).unwrap();
        }
    }
    assert_eq!(total, 2 * pair_total);
}
