//! Centroids of a point set: the arithmetic centroid (per-coordinate mean)
//! and the harmonic centroid (coordinatewise reciprocal of the summed
//! coordinatewise reciprocals).

use vstd::prelude::*;
use vstd::arithmetic::mul::lemma_mul_is_commutative;
use crate::arith::{div_trunc, div_i128, lemma_div_trunc_bound};
use crate::vecops::{ints, bounded, recip_spec};
use crate::pointset::PointSet;
use crate::{StatsError, SCALE, COORD_LIMIT, EST_LIMIT, COUNT_LIMIT};

verus! {

/// Sum of coordinate `k` over the first `m` points.
pub open spec fn coord_sum(s: Seq<Seq<int>>, k: int, m: int) -> int
    decreases m,
{
    if m <= 0 {
        0
    } else {
        coord_sum(s, k, m - 1) + s[m - 1][k]
    }
}

/// The arithmetic centroid: the exact per-coordinate mean of the set,
/// each coordinate rounded toward zero.
pub open spec fn acentroid_spec(s: Seq<Seq<int>>) -> Seq<int> {
    Seq::new(s[0].len(), |k: int| div_trunc(coord_sum(s, k, s.len() as int), s.len() as int))
}

/// Reciprocal sum of coordinate `k` over the first `m` points.
pub open spec fn recip_sum(s: Seq<Seq<int>>, k: int, m: int) -> int
    decreases m,
{
    if m <= 0 {
        0
    } else {
        recip_sum(s, k, m - 1) + recip_spec(s[m - 1][k])
    }
}

/// The harmonic centroid: the coordinatewise reciprocal of the summed
/// coordinatewise reciprocals of the points.
pub open spec fn hcentroid_spec(s: Seq<Seq<int>>) -> Seq<int> {
    Seq::new(s[0].len(), |k: int| recip_spec(recip_sum(s, k, s.len() as int)))
}

/// Coordinate sums of a well-formed set stay within `m * COORD_LIMIT`.
proof fn lemma_coord_sum_bound(s: Seq<Seq<int>>, k: int, m: int)
    requires
        crate::pointset::wf_points(s),
        0 <= k < s[0].len(),
        0 <= m <= s.len(),
    ensures
        -(m * (COORD_LIMIT as int)) <= coord_sum(s, k, m) <= m * (COORD_LIMIT as int),
        m >= 1 ==> -(m * ((COORD_LIMIT - 1) as int)) <= coord_sum(s, k, m) <= m * ((COORD_LIMIT
            - 1) as int),
    decreases m,
{
    if m > 0 {
        lemma_coord_sum_bound(s, k, m - 1);
        assert(bounded(s[m - 1], COORD_LIMIT as int));
        assert(-(COORD_LIMIT as int) < s[m - 1][k] < COORD_LIMIT as int);
        assert(m * (COORD_LIMIT as int) == (m - 1) * (COORD_LIMIT as int) + COORD_LIMIT as int)
            by (nonlinear_arith);
        assert(m * ((COORD_LIMIT - 1) as int) == (m - 1) * ((COORD_LIMIT - 1) as int) + (COORD_LIMIT
            - 1) as int) by (nonlinear_arith);
    } else {
        assert(m * (COORD_LIMIT as int) == 0) by (nonlinear_arith)
            requires
                m == 0,
        ;
        assert(m * ((COORD_LIMIT - 1) as int) == 0) by (nonlinear_arith)
            requires
                m == 0,
        ;
    }
}

/// Reciprocal sums over nonzero coordinates stay within `m * SCALE * SCALE`.
proof fn lemma_recip_sum_bound(s: Seq<Seq<int>>, k: int, m: int)
    requires
        0 <= m,
        forall|j: int| 0 <= j < m ==> #[trigger] s[j][k] != 0,
    ensures
        -(m * (SCALE as int) * (SCALE as int)) <= recip_sum(s, k, m) <= m * (SCALE as int) * (
        SCALE as int),
    decreases m,
{
    if m > 0 {
        lemma_recip_sum_bound(s, k, m - 1);
        let x = s[m - 1][k];
        let ss = (SCALE as int) * (SCALE as int);
        if x >= 1 {
            assert(ss <= ss * x) by (nonlinear_arith)
                requires
                    x >= 1,
                    ss > 0,
            ;
            lemma_mul_is_commutative(ss, x);
            lemma_div_trunc_bound(ss, x, ss);
        } else {
            assert(ss <= ss * (-x)) by (nonlinear_arith)
                requires
                    -x >= 1,
                    ss > 0,
            ;
            lemma_mul_is_commutative(ss, -x);
            lemma_div_trunc_bound(ss, -x, ss);
        }
        assert(m * (SCALE as int) * (SCALE as int) == (m - 1) * (SCALE as int) * (SCALE as int)
            + (SCALE as int) * (SCALE as int)) by (nonlinear_arith);
    } else {
        assert(m * (SCALE as int) * (SCALE as int) == 0) by (nonlinear_arith)
            requires
                m == 0,
        ;
    }
}

impl PointSet {
    /// The arithmetic centroid: per-coordinate mean of all points, each
    /// coordinate rounded toward zero.  For every non-empty set its
    /// coordinates equal the per-coordinate mean exactly.
    pub fn acentroid(&self) -> (r: Vec<i64>)
        requires
            self.wf(),
        ensures
            ints(r@) == acentroid_spec(self@),
            r@.len() == self@[0].len(),
            bounded(ints(r@), COORD_LIMIT as int),
    {
        let ghost s = self@;
        let n = self.len();
        let d = self.dim();
        let mut r: Vec<i64> = Vec::new();
        let mut k: usize = 0;
        while k < d
            invariant
                0 <= k <= d,
                n == s.len(),
                d == s[0].len(),
                s == self@,
                self.wf(),
                r@.len() == k,
                forall|t: int| 0 <= t < k ==> #[trigger] (r@[t] as int) == acentroid_spec(s)[t],
                forall|t: int| 0 <= t < k ==> -(COORD_LIMIT as int) < #[trigger] (r@[t] as int)
                    < COORD_LIMIT as int,
            decreases d - k,
        {
            let mut acc: i128 = 0;
            let mut i: usize = 0;
            while i < n
                invariant
                    0 <= i <= n,
                    0 <= k < d,
                    n == s.len(),
                    d == s[0].len(),
                    s == self@,
                    self.wf(),
                    acc == coord_sum(s, k as int, i as int),
                decreases n - i,
            {
                proof {
                    crate::distance::lemma_member_bounded(s, i as int);
                    lemma_coord_sum_bound(s, k as int, i as int);
                    lemma_coord_sum_bound(s, k as int, i as int + 1);
                    assert((i as int + 1) * (COORD_LIMIT as int) <= (COUNT_LIMIT as int) * (
                    COORD_LIMIT as int)) by (nonlinear_arith)
                        requires
                            0 <= i as int,
                            i as int + 1 <= COUNT_LIMIT as int,
                    ;
                    assert((i as int) * (COORD_LIMIT as int) <= (COUNT_LIMIT as int) * (
                    COORD_LIMIT as int)) by (nonlinear_arith)
                        requires
                            0 <= i as int <= COUNT_LIMIT as int,
                    ;
                }
                let p = self.point(i);
                acc = acc + (p[k] as i128);
                i = i + 1;
            }
            proof {
                lemma_coord_sum_bound(s, k as int, n as int);
                lemma_div_trunc_bound(acc as int, n as int, (COORD_LIMIT - 1) as int);
            }
            let q = div_i128(acc, n as i128);
            r.push(q as i64);
            k = k + 1;
        }
        proof {
            assert forall|t: int| 0 <= t < r@.len() implies ints(r@)[t] == acentroid_spec(s)[t] by {
                assert(ints(r@)[t] == r@[t] as int);
            }
            assert(ints(r@) =~= acentroid_spec(s));
        }
        r
    }

    /// The harmonic centroid: sums the coordinatewise reciprocal of every
    /// point and inverts the sum coordinatewise.  Fails with
    /// `DegenerateVector` if any coordinate of any point is exactly zero,
    /// or if the reciprocal sum is zero in some coordinate.
    pub fn hcentroid(&self) -> (r: Result<Vec<i64>, StatsError>)
        requires
            self.wf(),
        ensures
            match r {
                Ok(v) => {
                    &&& forall|i: int, k: int|
                        0 <= i < self@.len() && 0 <= k < self@[0].len() ==> #[trigger] self@[i][k]
                            != 0
                    &&& forall|k: int| 0 <= k < self@[0].len() ==> #[trigger] recip_sum(
                        self@,
                        k,
                        self@.len() as int,
                    ) != 0
                    &&& ints(v@) == hcentroid_spec(self@)
                    &&& v@.len() == self@[0].len()
                    &&& bounded(ints(v@), EST_LIMIT as int)
                },
                Err(e) => {
                    &&& e == StatsError::DegenerateVector
                    &&& (exists|i: int, k: int|
                        0 <= i < self@.len() && 0 <= k < self@[0].len() && #[trigger] self@[i][k]
                            == 0) || (exists|k: int|
                        0 <= k < self@[0].len() && #[trigger] recip_sum(
                            self@,
                            k,
                            self@.len() as int,
                        ) == 0)
                },
            },
    {
        let ghost s = self@;
        let n = self.len();
        let d = self.dim();
        let mut r: Vec<i64> = Vec::new();
        let mut k: usize = 0;
        while k < d
            invariant
                0 <= k <= d,
                n == s.len(),
                d == s[0].len(),
                s == self@,
                self.wf(),
                r@.len() == k,
                forall|i: int, t: int| 0 <= i < n && 0 <= t < k ==> #[trigger] s[i][t] != 0,
                forall|t: int| 0 <= t < k ==> #[trigger] recip_sum(s, t, n as int) != 0,
                forall|t: int| 0 <= t < k ==> #[trigger] (r@[t] as int) == hcentroid_spec(s)[t],
                forall|t: int| 0 <= t < k ==> -(EST_LIMIT as int) < #[trigger] (r@[t] as int) < (
                EST_LIMIT as int),
            decreases d - k,
        {
            let mut acc: i128 = 0;
            let mut i: usize = 0;
            while i < n
                invariant
                    0 <= i <= n,
                    0 <= k < d,
                    n == s.len(),
                    d == s[0].len(),
                    s == self@,
                    self.wf(),
                    forall|j: int| 0 <= j < i ==> #[trigger] s[j][k as int] != 0,
                    acc == recip_sum(s, k as int, i as int),
                decreases n - i,
            {
                let p = self.point(i);
                let x = p[k];
                if x == 0 {
                    proof {
                        assert(s[i as int][k as int] == 0);
                    }
                    return Err(StatsError::DegenerateVector);
                }
                proof {
                    lemma_recip_sum_bound(s, k as int, i as int);
                    lemma_recip_sum_bound(s, k as int, i as int + 1);
                    assert((i as int + 1) * (SCALE as int) * (SCALE as int) <= (COUNT_LIMIT as int)
                        * (SCALE as int) * (SCALE as int)) by (nonlinear_arith)
                        requires
                            0 <= i as int,
                            i as int + 1 <= COUNT_LIMIT as int,
                    ;
                    assert((i as int) * (SCALE as int) * (SCALE as int) <= (COUNT_LIMIT as int) * (
                    SCALE as int) * (SCALE as int)) by (nonlinear_arith)
                        requires
                            0 <= i as int <= COUNT_LIMIT as int,
                    ;
                    let ss = (SCALE as int) * (SCALE as int);
                    if x as int >= 1 {
                        assert(ss <= ss * (x as int)) by (nonlinear_arith)
                            requires
                                x as int >= 1,
                                ss > 0,
                        ;
                        lemma_mul_is_commutative(ss, x as int);
                        lemma_div_trunc_bound(ss, x as int, ss);
                    } else {
                        assert(ss <= ss * (-(x as int))) by (nonlinear_arith)
                            requires
                                -(x as int) >= 1,
                                ss > 0,
                        ;
                        lemma_mul_is_commutative(ss, -(x as int));
                        lemma_div_trunc_bound(ss, -(x as int), ss);
                    }
                }
                let t: i128 = if x > 0 {
                    div_i128((SCALE as i128) * (SCALE as i128), x as i128)
                } else {
                    -div_i128((SCALE as i128) * (SCALE as i128), -(x as i128))
                };
                acc = acc + t;
                i = i + 1;
            }
            if acc == 0 {
                proof {
                    assert(recip_sum(s, k as int, n as int) == 0);
                }
                return Err(StatsError::DegenerateVector);
            }
            proof {
                lemma_recip_sum_bound(s, k as int, n as int);
                assert((n as int) * (SCALE as int) * (SCALE as int) <= (COUNT_LIMIT as int) * (
                SCALE as int) * (SCALE as int)) by (nonlinear_arith)
                    requires
                        0 <= n as int <= COUNT_LIMIT as int,
                ;
                let ss = (SCALE as int) * (SCALE as int);
                if acc as int >= 1 {
                    assert(ss <= ss * (acc as int)) by (nonlinear_arith)
                        requires
                            acc as int >= 1,
                            ss > 0,
                    ;
                    lemma_mul_is_commutative(ss, acc as int);
                    lemma_div_trunc_bound(ss, acc as int, ss);
                } else {
                    assert(ss <= ss * (-(acc as int))) by (nonlinear_arith)
                        requires
                            -(acc as int) >= 1,
                            ss > 0,
                    ;
                    lemma_mul_is_commutative(ss, -(acc as int));
                    lemma_div_trunc_bound(ss, -(acc as int), ss);
                }
            }
            let q: i128 = if acc > 0 {
                div_i128((SCALE as i128) * (SCALE as i128), acc)
            } else {
                -div_i128((SCALE as i128) * (SCALE as i128), -acc)
            };
            r.push(q as i64);
            k = k + 1;
        }
        proof {
            assert forall|t: int| 0 <= t < r@.len() implies ints(r@)[t] == hcentroid_spec(s)[t] by {
                assert(ints(r@)[t] == r@[t] as int);
            }
            assert(ints(r@) =~= hcentroid_spec(s));
        }
        Ok(r)
    }
}

} // verus!
