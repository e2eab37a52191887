//! Geometric-median solvers.  The geometric median minimizes the sum of
//! distances to the members of a point set; it has no closed form, so
//! three iterative schemes are offered, each with an iteration cap and an
//! exact contract: the returned estimate equals a spec-level recursion
//! over the inputs, so every run on equal inputs returns the same value.

use vstd::prelude::*;
use vstd::arithmetic::mul::lemma_mul_is_commutative;
use vstd::arithmetic::div_mod::{lemma_div_pos_is_pos, lemma_div_nonincreasing};
use crate::arith::{div_trunc, div_i128, lemma_div_trunc_bound};
use crate::vecops::{ints, bounded, zero_seq, vdist_spec, vmag_spec, vsub_spec, vunit_spec,
    dotp_spec, vsub_raw, dist_raw, mag_raw, unit_scaled, dotp_raw};
use crate::pointset::{PointSet, wf_points};
use crate::centroid::acentroid_spec;
use crate::eccentric::{eccvec_spec, zeros_exec};
use crate::distance::lemma_member_bounded;
use crate::{StatsError, SCALE, COORD_LIMIT, EST_LIMIT, DIM_LIMIT, COUNT_LIMIT, MAX_ITERS,
    WEIGHT_ONE, OP_LIMIT};

verus! {

/// What a solver run amounts to: a converged estimate, a degenerate
/// configuration (no usable weights or directions), or a run that gave up
/// (iteration cap reached, or an iterate left the coordinate bound).
pub enum SolveOutcome {
    Converged(Seq<int>),
    Degenerate,
    Exhausted,
}

/// Sum of the reciprocal weights `WEIGHT_ONE / dist(v, p)` over the first
/// `m` points, skipping points coincident with `v`.
pub open spec fn bp_rsum(s: Seq<Seq<int>>, v: Seq<int>, m: int) -> int
    decreases m,
{
    if m <= 0 {
        0
    } else {
        let prev = bp_rsum(s, v, m - 1);
        let dd = vdist_spec(v, s[m - 1]);
        if dd == 0 {
            prev
        } else {
            prev + (WEIGHT_ONE as int) / dd
        }
    }
}

/// Sum of the weighted coordinates `p[k] * WEIGHT_ONE / dist(v, p)` over
/// the first `m` points, skipping points coincident with `v`.
pub open spec fn bp_vsum(s: Seq<Seq<int>>, v: Seq<int>, m: int, k: int) -> int
    decreases m,
{
    if m <= 0 {
        0
    } else {
        let prev = bp_vsum(s, v, m - 1, k);
        let dd = vdist_spec(v, s[m - 1]);
        if dd == 0 {
            prev
        } else {
            prev + div_trunc(s[m - 1][k] * (WEIGHT_ONE as int), dd)
        }
    }
}

/// The next Weiszfeld estimate from `v`: the reciprocal-distance-weighted
/// average of the points (meaningful only when the weight sum is nonzero).
pub open spec fn next_estimate_spec(s: Seq<Seq<int>>, v: Seq<int>) -> Seq<int> {
    Seq::new(
        s[0].len(),
        |k: int| div_trunc(bp_vsum(s, v, s.len() as int, k), bp_rsum(s, v, s.len() as int)),
    )
}

/// The weighted fixed-point iteration from estimate `v` with `fuel`
/// further rounds allowed: take one Weiszfeld step; stop as converged
/// when the step moved less than `eps`, returning the new estimate (the
/// final improving step is kept).
pub open spec fn nmedian_iter_spec(s: Seq<Seq<int>>, eps: int, v: Seq<int>, fuel: nat)
    -> SolveOutcome
    decreases fuel,
{
    if bp_rsum(s, v, s.len() as int) == 0 {
        SolveOutcome::Degenerate
    } else {
        let nv = next_estimate_spec(s, v);
        if !bounded(nv, EST_LIMIT as int) {
            SolveOutcome::Exhausted
        } else if vdist_spec(nv, v) < eps {
            SolveOutcome::Converged(nv)
        } else if fuel == 0 {
            SolveOutcome::Exhausted
        } else {
            nmedian_iter_spec(s, eps, nv, (fuel - 1) as nat)
        }
    }
}

/// The whole weighted fixed-point run: seeded at the arithmetic centroid,
/// at most `MAX_ITERS` rounds.
pub open spec fn nmedian_spec(s: Seq<Seq<int>>, eps: int) -> SolveOutcome {
    nmedian_iter_spec(s, eps, acentroid_spec(s), MAX_ITERS as nat)
}

/// Reciprocal-weight sums are nonnegative and at most `m * WEIGHT_ONE`.
pub proof fn lemma_bp_rsum_bound(s: Seq<Seq<int>>, v: Seq<int>, m: int)
    requires
        0 <= m,
    ensures
        0 <= bp_rsum(s, v, m) <= m * (WEIGHT_ONE as int),
    decreases m,
{
    if m > 0 {
        lemma_bp_rsum_bound(s, v, m - 1);
        let dd = vdist_spec(v, s[m - 1]);
        if dd != 0 {
            if dd > 0 {
                lemma_div_pos_is_pos(WEIGHT_ONE as int, dd);
                lemma_div_nonincreasing(WEIGHT_ONE as int, dd);
            } else {
                // a distance is an integer square root, hence nonnegative
                crate::vecops::lemma_vmag_nonneg(vsub_spec(v, s[m - 1]));
            }
        }
        assert(m * (WEIGHT_ONE as int) == (m - 1) * (WEIGHT_ONE as int) + WEIGHT_ONE as int)
            by (nonlinear_arith);
    } else {
        assert(m * (WEIGHT_ONE as int) == 0) by (nonlinear_arith)
            requires
                m == 0,
        ;
    }
}

/// Weighted coordinate sums of a well-formed set stay within
/// `m * COORD_LIMIT * WEIGHT_ONE`.
pub proof fn lemma_bp_vsum_bound(s: Seq<Seq<int>>, v: Seq<int>, m: int, k: int)
    requires
        wf_points(s),
        0 <= m <= s.len(),
        0 <= k < s[0].len(),
    ensures
        -(m * (COORD_LIMIT as int) * (WEIGHT_ONE as int)) <= bp_vsum(s, v, m, k) <= m * (
        COORD_LIMIT as int) * (WEIGHT_ONE as int),
    decreases m,
{
    if m > 0 {
        lemma_bp_vsum_bound(s, v, m - 1, k);
        let dd = vdist_spec(v, s[m - 1]);
        if dd != 0 {
            crate::vecops::lemma_vmag_nonneg(vsub_spec(v, s[m - 1]));
            let p = s[m - 1][k];
            assert(bounded(s[m - 1], COORD_LIMIT as int));
            assert(-(COORD_LIMIT as int) < p < COORD_LIMIT as int);
            assert(-((COORD_LIMIT as int) * (WEIGHT_ONE as int)) <= p * (WEIGHT_ONE as int) <= (
            COORD_LIMIT as int) * (WEIGHT_ONE as int)) by (nonlinear_arith)
                requires
                    -(COORD_LIMIT as int) < p < COORD_LIMIT as int,
            ;
            assert((COORD_LIMIT as int) * (WEIGHT_ONE as int) <= (COORD_LIMIT as int) * (
            WEIGHT_ONE as int) * dd) by (nonlinear_arith)
                requires
                    dd >= 1,
            ;
            lemma_mul_is_commutative((COORD_LIMIT as int) * (WEIGHT_ONE as int), dd);
            lemma_div_trunc_bound(
                p * (WEIGHT_ONE as int),
                dd,
                (COORD_LIMIT as int) * (WEIGHT_ONE as int),
            );
        }
        assert(m * (COORD_LIMIT as int) * (WEIGHT_ONE as int) == (m - 1) * (COORD_LIMIT as int) * (
        WEIGHT_ONE as int) + (COORD_LIMIT as int) * (WEIGHT_ONE as int)) by (nonlinear_arith);
    } else {
        assert(m * (COORD_LIMIT as int) * (WEIGHT_ONE as int) == 0) by (nonlinear_arith)
            requires
                m == 0,
        ;
    }
}

impl PointSet {
    /// Both Weiszfeld accumulators in one pass: the reciprocal-weight sum
    /// and the weighted coordinate sums.
    fn weiszfeld_sums(&self, v: &Vec<i64>) -> (r: (i128, Vec<i128>))
        requires
            self.wf(),
            bounded(ints(v@), EST_LIMIT as int),
            v@.len() == self@[0].len(),
        ensures
            r.0 == bp_rsum(self@, ints(v@), self@.len() as int),
            r.0 >= 0,
            r.1@.len() == self@[0].len(),
            forall|k: int| 0 <= k < r.1@.len() ==> #[trigger] (r.1@[k] as int) == bp_vsum(
                self@,
                ints(v@),
                self@.len() as int,
                k,
            ),
    {
        let ghost s = self@;
        let ghost vq = ints(v@);
        let n = self.len();
        let d = self.dim();
        let mut rsum: i128 = 0;
        let mut vsum: Vec<i128> = Vec::new();
        let mut t: usize = 0;
        while t < d
            invariant
                0 <= t <= d,
                vsum@.len() == t,
                forall|k: int| 0 <= k < t ==> #[trigger] (vsum@[k] as int) == 0,
            decreases d - t,
        {
            vsum.push(0i128);
            t = t + 1;
        }
        let mut i: usize = 0;
        while i < n
            invariant
                0 <= i <= n,
                n == s.len(),
                d == s[0].len(),
                s == self@,
                self.wf(),
                vq == ints(v@),
                vq.len() == d,
                bounded(vq, EST_LIMIT as int),
                rsum == bp_rsum(s, vq, i as int),
                vsum@.len() == d,
                forall|k: int| 0 <= k < d ==> #[trigger] (vsum@[k] as int) == bp_vsum(
                    s,
                    vq,
                    i as int,
                    k,
                ),
            decreases n - i,
        {
            proof {
                lemma_member_bounded(s, i as int);
            }
            let dd = dist_raw(v, self.point(i));
            if dd != 0 {
                proof {
                    lemma_bp_rsum_bound(s, vq, i as int);
                    lemma_bp_rsum_bound(s, vq, i as int + 1);
                    assert((i as int + 1) * (WEIGHT_ONE as int) <= (COUNT_LIMIT as int) * (
                    WEIGHT_ONE as int)) by (nonlinear_arith)
                        requires
                            0 <= i as int,
                            i as int + 1 <= COUNT_LIMIT as int,
                    ;
                }
                let w = div_i128(WEIGHT_ONE, dd as i128);
                rsum = rsum + w;
                let p = self.point(i);
                let mut k: usize = 0;
                while k < d
                    invariant
                        0 <= k <= d,
                        0 <= i < n,
                        n == s.len(),
                        d == s[0].len(),
                        s == self@,
                        self.wf(),
                        vq.len() == d,
                        ints(p@) == s[i as int],
                        p@.len() == d,
                        dd as int == vdist_spec(vq, s[i as int]),
                        dd != 0,
                        dd >= 0,
                        vsum@.len() == d,
                        forall|t2: int| k <= t2 < d ==> #[trigger] (vsum@[t2] as int) == bp_vsum(
                            s,
                            vq,
                            i as int,
                            t2,
                        ),
                        forall|t2: int| 0 <= t2 < k ==> #[trigger] (vsum@[t2] as int) == bp_vsum(
                            s,
                            vq,
                            i as int + 1,
                            t2,
                        ),
                    decreases d - k,
                {
                    proof {
                        lemma_bp_vsum_bound(s, vq, i as int, k as int);
                        lemma_bp_vsum_bound(s, vq, i as int + 1, k as int);
                        assert((i as int + 1) * (COORD_LIMIT as int) * (WEIGHT_ONE as int) <= (
                        COUNT_LIMIT as int) * (COORD_LIMIT as int) * (WEIGHT_ONE as int))
                            by (nonlinear_arith)
                            requires
                                0 <= i as int,
                                i as int + 1 <= COUNT_LIMIT as int,
                        ;
                        assert((i as int) * (COORD_LIMIT as int) * (WEIGHT_ONE as int) <= (
                        COUNT_LIMIT as int) * (COORD_LIMIT as int) * (WEIGHT_ONE as int))
                            by (nonlinear_arith)
                            requires
                                0 <= i as int <= COUNT_LIMIT as int,
                        ;
                        lemma_member_bounded(s, i as int);
                        assert(-(COORD_LIMIT as int) < s[i as int][k as int] < COORD_LIMIT as int);
                        assert(-((COORD_LIMIT as int) * (WEIGHT_ONE as int)) <= (s[i as int][k as int])
                            * (WEIGHT_ONE as int) <= (COORD_LIMIT as int) * (WEIGHT_ONE as int))
                            by (nonlinear_arith)
                            requires
                                -(COORD_LIMIT as int) < s[i as int][k as int] < COORD_LIMIT as int,
                        ;
                        assert(ints(p@)[k as int] == p@[k as int] as int);
                    }
                    let tk = div_i128((p[k] as i128) * WEIGHT_ONE, dd as i128);
                    let cur = vsum[k];
                    vsum.set(k, cur + tk);
                    k = k + 1;
                }
            } else {
                proof {
                    assert forall|t2: int| 0 <= t2 < d implies #[trigger] (vsum@[t2] as int)
                        == bp_vsum(s, vq, i as int + 1, t2) by {
                        assert(bp_vsum(s, vq, i as int + 1, t2) == bp_vsum(s, vq, i as int, t2));
                    }
                }
            }
            i = i + 1;
        }
        proof {
            lemma_bp_rsum_bound(s, vq, n as int);
        }
        (rsum, vsum)
    }

    /// One Weiszfeld step from the estimate `v`: the reciprocal-distance
    /// weighted average of the points.  Fails with `DegenerateVector`
    /// when every point coincides with `v` (no weights), and with
    /// `NonConvergent` when the new estimate leaves the iterate bound.
    fn next_estimate(&self, v: &Vec<i64>) -> (r: Result<Vec<i64>, StatsError>)
        requires
            self.wf(),
            bounded(ints(v@), EST_LIMIT as int),
            v@.len() == self@[0].len(),
        ensures
            match r {
                Ok(nv) => {
                    &&& bp_rsum(self@, ints(v@), self@.len() as int) != 0
                    &&& ints(nv@) == next_estimate_spec(self@, ints(v@))
                    &&& bounded(ints(nv@), EST_LIMIT as int)
                    &&& nv@.len() == self@[0].len()
                },
                Err(StatsError::DegenerateVector) => bp_rsum(self@, ints(v@), self@.len() as int)
                    == 0,
                Err(StatsError::NonConvergent) => {
                    &&& bp_rsum(self@, ints(v@), self@.len() as int) != 0
                    &&& !bounded(next_estimate_spec(self@, ints(v@)), EST_LIMIT as int)
                },
                Err(_) => false,
            },
    {
        let ghost s = self@;
        let ghost vq = ints(v@);
        let n = self.len();
        let d = self.dim();
        let (rsum, vsum) = self.weiszfeld_sums(v);
        if rsum == 0 {
            return Err(StatsError::DegenerateVector);
        }
        let mut nv: Vec<i64> = Vec::new();
        let mut k: usize = 0;
        while k < d
            invariant
                0 <= k <= d,
                n == s.len(),
                d == s[0].len(),
                s == self@,
                self.wf(),
                vq == ints(v@),
                rsum == bp_rsum(s, vq, n as int),
                rsum > 0,
                vsum@.len() == d,
                forall|t2: int| 0 <= t2 < d ==> #[trigger] (vsum@[t2] as int) == bp_vsum(
                    s,
                    vq,
                    n as int,
                    t2,
                ),
                nv@.len() == k,
                forall|t2: int| 0 <= t2 < k ==> #[trigger] (nv@[t2] as int) == next_estimate_spec(
                    s,
                    vq,
                )[t2],
                forall|t2: int| 0 <= t2 < k ==> -(EST_LIMIT as int) < #[trigger] (nv@[t2] as int)
                    < EST_LIMIT as int,
            decreases d - k,
        {
            proof {
                lemma_bp_vsum_bound(s, vq, n as int, k as int);
                assert((n as int) * (COORD_LIMIT as int) * (WEIGHT_ONE as int) <= (
                COUNT_LIMIT as int) * (COORD_LIMIT as int) * (WEIGHT_ONE as int))
                    by (nonlinear_arith)
                    requires
                        0 <= n as int <= COUNT_LIMIT as int,
                ;
            }
            let q = div_i128(vsum[k], rsum);
            proof {
                assert(next_estimate_spec(s, vq)[k as int] == div_trunc(
                    bp_vsum(s, vq, n as int, k as int),
                    bp_rsum(s, vq, n as int),
                ));
            }
            if q >= EST_LIMIT as i128 || q <= -(EST_LIMIT as i128) {
                proof {
                    assert(!(-(EST_LIMIT as int) < next_estimate_spec(s, vq)[k as int] < (
                    EST_LIMIT as int)));
                    assert(!bounded(next_estimate_spec(s, vq), EST_LIMIT as int));
                }
                return Err(StatsError::NonConvergent);
            }
            nv.push(q as i64);
            k = k + 1;
        }
        proof {
            assert forall|t2: int| 0 <= t2 < nv@.len() implies ints(nv@)[t2] == next_estimate_spec(
                s,
                vq,
            )[t2] by {
                assert(ints(nv@)[t2] == nv@[t2] as int);
            }
            assert(ints(nv@) =~= next_estimate_spec(s, vq));
            assert forall|t2: int| 0 <= t2 < ints(nv@).len() implies -(EST_LIMIT as int)
                < #[trigger] ints(nv@)[t2] < EST_LIMIT as int by {
                assert(ints(nv@)[t2] == nv@[t2] as int);
            }
        }
        Ok(nv)
    }

    /// The first-point seed for the median iteration: the
    /// inverse-magnitude-weighted average of the points.  Points at the
    /// origin are skipped; if every point lies there the seed is
    /// degenerate.  The `NonConvergent` case discharges the machine
    /// coordinate bound; no input reaches it.
    pub fn firstpoint(&self) -> (r: Result<Vec<i64>, StatsError>)
        requires
            self.wf(),
        ensures
            match r {
                Ok(fp) => {
                    &&& bp_rsum(self@, zero_seq(self@[0].len()), self@.len() as int) != 0
                    &&& ints(fp@) == next_estimate_spec(self@, zero_seq(self@[0].len()))
                    &&& bounded(ints(fp@), EST_LIMIT as int)
                    &&& fp@.len() == self@[0].len()
                },
                Err(StatsError::DegenerateVector) => bp_rsum(
                    self@,
                    zero_seq(self@[0].len()),
                    self@.len() as int,
                ) == 0,
                Err(StatsError::NonConvergent) => {
                    &&& bp_rsum(self@, zero_seq(self@[0].len()), self@.len() as int) != 0
                    &&& !bounded(
                        next_estimate_spec(self@, zero_seq(self@[0].len())),
                        EST_LIMIT as int,
                    )
                },
                Err(_) => false,
            },
    {
        let d = self.dim();
        let z = zeros_exec(d);
        proof {
            assert(ints(z@) =~= zero_seq(self@[0].len()));
        }
        self.next_estimate(&z)
    }

    /// Weighted fixed-point iteration for the geometric median: from the
    /// arithmetic centroid, repeat Weiszfeld steps until a step moves
    /// less than `eps`, and return the final improving step's estimate.
    /// Fails with `DegenerateVector` when a step has no usable weights
    /// (all points coincide with the estimate) and with `NonConvergent`
    /// when `MAX_ITERS` rounds did not converge or an iterate left the
    /// coordinate bound.
    pub fn nmedian(&self, eps: i64) -> (r: Result<Vec<i64>, StatsError>)
        requires
            self.wf(),
            eps >= 1,
        ensures
            match r {
                Ok(g) => {
                    &&& nmedian_spec(self@, eps as int) == SolveOutcome::Converged(ints(g@))
                    &&& bounded(ints(g@), EST_LIMIT as int)
                    &&& g@.len() == self@[0].len()
                },
                Err(StatsError::DegenerateVector) => nmedian_spec(self@, eps as int)
                    == SolveOutcome::Degenerate,
                Err(StatsError::NonConvergent) => nmedian_spec(self@, eps as int)
                    == SolveOutcome::Exhausted,
                Err(_) => false,
            },
    {
        let ghost s = self@;
        let d = self.dim();
        let mut v = self.acentroid();
        let mut iter: usize = 0;
        loop
            invariant
                s == self@,
                self.wf(),
                d == s[0].len(),
                eps >= 1,
                v@.len() == d,
                bounded(ints(v@), EST_LIMIT as int),
                0 <= iter <= MAX_ITERS,
                nmedian_iter_spec(s, eps as int, ints(v@), (MAX_ITERS - iter) as nat)
                    == nmedian_spec(s, eps as int),
            decreases MAX_ITERS - iter,
        {
            let nv = match self.next_estimate(&v) {
                Ok(nv) => nv,
                Err(StatsError::DegenerateVector) => {
                    return Err(StatsError::DegenerateVector);
                },
                Err(_) => {
                    return Err(StatsError::NonConvergent);
                },
            };
            let step = dist_raw(&nv, &v);
            if step < eps {
                return Ok(nv);
            }
            if iter == MAX_ITERS {
                return Err(StatsError::NonConvergent);
            }
            v = nv;
            iter = iter + 1;
        }
    }
}


/// What one two-point secant round does: fail on a zero eccentricity
/// direction, give up on a degenerate solve or an oversized move, finish
/// with the midpoint, or continue with two new points.
pub enum GmStep {
    Degenerate,
    Stuck,
    Done(Seq<int>),
    Next(Seq<int>, Seq<int>),
}

/// The denominator of the two-point secant solve, scaled down: positive
/// when the two unit directions are far enough from parallel.
pub open spec fn gm_den2_spec(s: Seq<Seq<int>>, op1: Seq<int>, op2: Seq<int>) -> int {
    let c = dotp_spec(vunit_spec(eccvec_spec(s, op1)), vunit_spec(eccvec_spec(s, op2)));
    div_trunc(
        (SCALE as int) * (SCALE as int) * (SCALE as int) * (SCALE as int) - c * c,
        (SCALE as int) * (SCALE as int),
    )
}

/// The step length along the second direction.
pub open spec fn gm_b_spec(s: Seq<Seq<int>>, op1: Seq<int>, op2: Seq<int>) -> int {
    let u = vunit_spec(eccvec_spec(s, op1));
    let w = vunit_spec(eccvec_spec(s, op2));
    let c = dotp_spec(u, w);
    let pd = vsub_spec(op2, op1);
    let c1 = div_trunc(c, SCALE as int);
    let num = c1 * dotp_spec(u, pd) - (SCALE as int) * dotp_spec(w, pd);
    div_trunc(num, gm_den2_spec(s, op1, op2))
}

/// The step length along the first direction.
pub open spec fn gm_a_spec(s: Seq<Seq<int>>, op1: Seq<int>, op2: Seq<int>) -> int {
    let u = vunit_spec(eccvec_spec(s, op1));
    let w = vunit_spec(eccvec_spec(s, op2));
    let c = dotp_spec(u, w);
    let pd = vsub_spec(op2, op1);
    let c1 = div_trunc(c, SCALE as int);
    div_trunc(dotp_spec(u, pd), SCALE as int) + div_trunc(
        gm_b_spec(s, op1, op2) * c1,
        SCALE as int,
    )
}

/// The first new point: `op1` moved by `a` along its unit direction.
pub open spec fn gm_f1_spec(s: Seq<Seq<int>>, op1: Seq<int>, op2: Seq<int>) -> Seq<int> {
    Seq::new(
        op1.len(),
        |k: int| op1[k] + div_trunc(
            gm_a_spec(s, op1, op2) * vunit_spec(eccvec_spec(s, op1))[k],
            SCALE as int,
        ),
    )
}

/// The second new point: `op2` moved by `b` along its unit direction.
pub open spec fn gm_f2_spec(s: Seq<Seq<int>>, op1: Seq<int>, op2: Seq<int>) -> Seq<int> {
    Seq::new(
        op2.len(),
        |k: int| op2[k] + div_trunc(
            gm_b_spec(s, op1, op2) * vunit_spec(eccvec_spec(s, op2))[k],
            SCALE as int,
        ),
    )
}

/// The midpoint of the two new points, the converged result.
pub open spec fn gm_mid_spec(s: Seq<Seq<int>>, op1: Seq<int>, op2: Seq<int>) -> Seq<int> {
    Seq::new(
        gm_f1_spec(s, op1, op2).len(),
        |k: int| div_trunc(gm_f1_spec(s, op1, op2)[k] + gm_f2_spec(s, op1, op2)[k], 2),
    )
}

/// One round of the two-point secant iteration, exactly as computed: unit
/// eccentricity directions at the two estimates, the 2x2 solve for the
/// step lengths along them, and the convergence test on the distance of
/// the two new points.
pub open spec fn gmedian_step_spec(s: Seq<Seq<int>>, eps: int, op1: Seq<int>, op2: Seq<int>)
    -> GmStep {
    if vmag_spec(eccvec_spec(s, op1)) == 0 || vmag_spec(eccvec_spec(s, op2)) == 0 {
        GmStep::Degenerate
    } else if gm_den2_spec(s, op1, op2) <= 0 {
        GmStep::Stuck
    } else if gm_b_spec(s, op1, op2) >= OP_LIMIT as int || gm_b_spec(s, op1, op2) <= -(
    OP_LIMIT as int) {
        GmStep::Stuck
    } else if !bounded(gm_f1_spec(s, op1, op2), EST_LIMIT as int) || !bounded(
        gm_f2_spec(s, op1, op2),
        EST_LIMIT as int,
    ) {
        GmStep::Stuck
    } else if vdist_spec(gm_f1_spec(s, op1, op2), gm_f2_spec(s, op1, op2)) < eps {
        GmStep::Done(gm_mid_spec(s, op1, op2))
    } else {
        GmStep::Next(gm_f1_spec(s, op1, op2), gm_f2_spec(s, op1, op2))
    }
}

/// The two-point secant iteration with `fuel` further rounds allowed.
pub open spec fn gmedian_iter_spec(
    s: Seq<Seq<int>>,
    eps: int,
    op1: Seq<int>,
    op2: Seq<int>,
    fuel: nat,
) -> SolveOutcome
    decreases fuel,
{
    match gmedian_step_spec(s, eps, op1, op2) {
        GmStep::Degenerate => SolveOutcome::Degenerate,
        GmStep::Stuck => SolveOutcome::Exhausted,
        GmStep::Done(g) => SolveOutcome::Converged(g),
        GmStep::Next(f1, f2) => if fuel == 0 {
            SolveOutcome::Exhausted
        } else {
            gmedian_iter_spec(s, eps, f1, f2, (fuel - 1) as nat)
        },
    }
}

/// The whole two-point secant run: seeded at the first point and the
/// arithmetic centroid, at most `MAX_ITERS` rounds.
pub open spec fn gmedian_spec(s: Seq<Seq<int>>, eps: int) -> SolveOutcome {
    if bp_rsum(s, zero_seq(s[0].len()), s.len() as int) == 0 {
        SolveOutcome::Degenerate
    } else {
        let op1 = next_estimate_spec(s, zero_seq(s[0].len()));
        if !bounded(op1, EST_LIMIT as int) {
            SolveOutcome::Exhausted
        } else {
            gmedian_iter_spec(s, eps, op1, acentroid_spec(s), MAX_ITERS as nat)
        }
    }
}

/// One executable two-point secant round.
enum GmRound {
    Degenerate,
    Stuck,
    Done(Vec<i64>),
    Next(Vec<i64>, Vec<i64>),
}

impl PointSet {
    /// One round of the two-point secant iteration.
    fn gm_step(&self, eps: i64, op1: &Vec<i64>, op2: &Vec<i64>) -> (r: GmRound)
        requires
            self.wf(),
            eps >= 1,
            bounded(ints(op1@), EST_LIMIT as int),
            bounded(ints(op2@), EST_LIMIT as int),
            op1@.len() == self@[0].len(),
            op2@.len() == self@[0].len(),
        ensures
            match r {
                GmRound::Degenerate => gmedian_step_spec(self@, eps as int, ints(op1@), ints(op2@))
                    == GmStep::Degenerate,
                GmRound::Stuck => gmedian_step_spec(self@, eps as int, ints(op1@), ints(op2@))
                    == GmStep::Stuck,
                GmRound::Done(g) => {
                    &&& gmedian_step_spec(self@, eps as int, ints(op1@), ints(op2@))
                        == GmStep::Done(ints(g@))
                    &&& bounded(ints(g@), EST_LIMIT as int)
                    &&& g@.len() == self@[0].len()
                },
                GmRound::Next(f1, f2) => {
                    &&& gmedian_step_spec(self@, eps as int, ints(op1@), ints(op2@))
                        == GmStep::Next(ints(f1@), ints(f2@))
                    &&& bounded(ints(f1@), EST_LIMIT as int)
                    &&& bounded(ints(f2@), EST_LIMIT as int)
                    &&& f1@.len() == self@[0].len()
                    &&& f2@.len() == self@[0].len()
                },
            },
    {
        let ghost s = self@;
        let ghost o1 = ints(op1@);
        let ghost o2 = ints(op2@);
        let n = self.len();
        let d = self.dim();
        let e1v = match self.eccnonmember(op1) {
            Ok(v) => v,
            Err(_) => {
                proof {
                    assert(false);
                }
                return GmRound::Stuck;
            },
        };
        let e2v = match self.eccnonmember(op2) {
            Ok(v) => v,
            Err(_) => {
                proof {
                    assert(false);
                }
                return GmRound::Stuck;
            },
        };
        proof {
            assert forall|k: int| 0 <= k < ints(e1v@).len() implies -(OP_LIMIT as int) < #[trigger]
                ints(e1v@)[k] < OP_LIMIT as int by {
                assert(ints(e1v@)[k] == e1v@[k] as int);
                assert((n as int) * (SCALE as int) < OP_LIMIT as int) by (nonlinear_arith)
                    requires
                        0 <= n as int <= COUNT_LIMIT as int,
                ;
            }
            assert forall|k: int| 0 <= k < ints(e2v@).len() implies -(OP_LIMIT as int) < #[trigger]
                ints(e2v@)[k] < OP_LIMIT as int by {
                assert(ints(e2v@)[k] == e2v@[k] as int);
                assert((n as int) * (SCALE as int) < OP_LIMIT as int) by (nonlinear_arith)
                    requires
                        0 <= n as int <= COUNT_LIMIT as int,
                ;
            }
        }
        let m1 = mag_raw(&e1v);
        let m2 = mag_raw(&e2v);
        if m1 == 0 || m2 == 0 {
            return GmRound::Degenerate;
        }
        let u = unit_scaled(&e1v, m1);
        let w = unit_scaled(&e2v, m2);
        let ghost us = vunit_spec(eccvec_spec(s, o1));
        let ghost ws = vunit_spec(eccvec_spec(s, o2));
        proof {
            assert(ints(u@) == us);
            assert(ints(w@) == ws);
        }
        let c = dotp_raw(&u, &w);
        let pd = vsub_raw(op2, op1);
        let udotpd = dotp_raw(&u, &pd);
        let wdotpd = dotp_raw(&w, &pd);
        proof {
            crate::vecops::lemma_dot_prefix_bound(
                ints(u@),
                ints(w@),
                SCALE as int + 1,
                SCALE as int + 1,
                d as int,
            );
            crate::vecops::lemma_dot_prefix_bound(
                ints(u@),
                ints(pd@),
                SCALE as int + 1,
                2 * EST_LIMIT as int,
                d as int,
            );
            crate::vecops::lemma_dot_prefix_bound(
                ints(w@),
                ints(pd@),
                SCALE as int + 1,
                2 * EST_LIMIT as int,
                d as int,
            );
            assert((d as int) * (SCALE as int + 1) * (SCALE as int + 1) <= 0x8000000000000int)
                by (nonlinear_arith)
                requires
                    0 <= d as int <= DIM_LIMIT as int,
            ;
            assert((d as int) * (SCALE as int + 1) * (2 * EST_LIMIT as int)
                <= 0x100000000000000000000int) by (nonlinear_arith)
                requires
                    0 <= d as int <= DIM_LIMIT as int,
            ;
            assert((0x80000000int) * (SCALE as int) == 0x8000000000000int);
            vstd::arithmetic::mul::lemma_mul_is_commutative(0x80000000int, SCALE as int);
            lemma_div_trunc_bound(c as int, SCALE as int, 0x80000000int);
        }
        let c1 = div_i128(c, SCALE as i128);
        proof {
            assert(-0x80000000000000000000000000000int <= (c1 as int) * (udotpd as int)
                <= 0x80000000000000000000000000000int) by (nonlinear_arith)
                requires
                    -0x80000000int <= (c1 as int) && (c1 as int) <= 0x80000000int,
                    -0x100000000000000000000int <= (udotpd as int) && (udotpd as int)
                        <= 0x100000000000000000000int,
            ;
            assert(-0x100000000000000000000000000int <= (SCALE as int) * (wdotpd as int)
                <= 0x100000000000000000000000000int) by (nonlinear_arith)
                requires
                    -0x100000000000000000000int <= (wdotpd as int) && (wdotpd as int)
                        <= 0x100000000000000000000int,
            ;
            assert(-0x4000000000000000000000000000int <= (c as int) * (c as int)
                <= 0x4000000000000000000000000000int) by (nonlinear_arith)
                requires
                    -0x8000000000000int <= (c as int) && (c as int) <= 0x8000000000000int,
            ;
        }
        let num = c1 * udotpd - (SCALE as i128) * wdotpd;
        let den = (SCALE as i128) * (SCALE as i128) * (SCALE as i128) * (SCALE as i128) - c * c;
        let den2 = div_i128(den, (SCALE as i128) * (SCALE as i128));
        proof {
            assert(den2 as int == gm_den2_spec(s, o1, o2));
        }
        if den2 <= 0 {
            proof {
                assert(gmedian_step_spec(s, eps as int, o1, o2) == GmStep::Stuck);
            }
            return GmRound::Stuck;
        }
        let b = div_i128(num, den2);
        proof {
            assert(b as int == gm_b_spec(s, o1, o2));
        }
        if b >= OP_LIMIT as i128 || b <= -(OP_LIMIT as i128) {
            proof {
                assert(gmedian_step_spec(s, eps as int, o1, o2) == GmStep::Stuck);
            }
            return GmRound::Stuck;
        }
        proof {
            assert(-(0x2000000000000000int * (SCALE as int)) <= (b as int) * (c1 as int)
                <= 0x2000000000000000int * (SCALE as int)) by (nonlinear_arith)
                requires
                    -(OP_LIMIT as int) < (b as int) && (b as int) < OP_LIMIT as int,
                    -0x80000000int <= (c1 as int) && (c1 as int) <= 0x80000000int,
            ;
            vstd::arithmetic::mul::lemma_mul_is_commutative(0x2000000000000000int, SCALE as int);
            lemma_div_trunc_bound((b as int) * (c1 as int), SCALE as int, 0x2000000000000000int);
            assert((0x1000000000000000int) * (SCALE as int) == 0x100000000000000000000int);
            vstd::arithmetic::mul::lemma_mul_is_commutative(0x1000000000000000int, SCALE as int);
            lemma_div_trunc_bound(udotpd as int, SCALE as int, 0x1000000000000000int);
        }
        let a = div_i128(udotpd, SCALE as i128) + div_i128(b * c1, SCALE as i128);
        proof {
            assert(a as int == gm_a_spec(s, o1, o2));
        }
        let ghost f1s = gm_f1_spec(s, o1, o2);
        let ghost f2s = gm_f2_spec(s, o1, o2);
        let mut f1: Vec<i64> = Vec::new();
        let mut k: usize = 0;
        while k < d
            invariant
                0 <= k <= d,
                d == s[0].len(),
                s == self@,
                self.wf(),
                eps >= 1,
                o1 == ints(op1@),
                o2 == ints(op2@),
                o1.len() == d,
                bounded(o1, EST_LIMIT as int),
                op1@.len() == d,
                u@.len() == d,
                ints(u@) == vunit_spec(eccvec_spec(s, o1)),
                forall|t: int| 0 <= t < d ==> -(SCALE as int) <= #[trigger] (u@[t] as int)
                    <= SCALE as int,
                -0x8000000000000000i128 < a < 0x8000000000000000i128,
                a as int == gm_a_spec(s, o1, o2),
                vmag_spec(eccvec_spec(s, o1)) != 0,
                vmag_spec(eccvec_spec(s, o2)) != 0,
                gm_den2_spec(s, o1, o2) > 0,
                -(OP_LIMIT as int) < gm_b_spec(s, o1, o2) < OP_LIMIT as int,
                f1s == gm_f1_spec(s, o1, o2),
                f1@.len() == k,
                forall|t: int| 0 <= t < k ==> #[trigger] (f1@[t] as int) == f1s[t],
                forall|t: int| 0 <= t < k ==> -(EST_LIMIT as int) < #[trigger] (f1@[t] as int)
                    < EST_LIMIT as int,
            decreases d - k,
        {
            proof {
                assert(-(0x8000000000000000int * (SCALE as int)) <= (a as int) * (
                u@[k as int] as int) <= 0x8000000000000000int * (SCALE as int))
                    by (nonlinear_arith)
                    requires
                        -0x8000000000000000int < (a as int) && (a as int) < 0x8000000000000000int,
                        -(SCALE as int) <= (u@[k as int] as int) && (u@[k as int] as int)
                            <= SCALE as int,
                ;
                vstd::arithmetic::mul::lemma_mul_is_commutative(
                    0x8000000000000000int,
                    SCALE as int,
                );
                lemma_div_trunc_bound(
                    (a as int) * (u@[k as int] as int),
                    SCALE as int,
                    0x8000000000000000int,
                );
                assert(ints(u@)[k as int] == u@[k as int] as int);
                assert(f1s[k as int] == o1[k as int] + div_trunc(
                    (a as int) * (u@[k as int] as int),
                    SCALE as int,
                ));
            }
            let t = div_i128(a * (u[k] as i128), SCALE as i128);
            let f1k = (op1[k] as i128) + t;
            if f1k >= EST_LIMIT as i128 || f1k <= -(EST_LIMIT as i128) {
                proof {
                    assert(f1s[k as int] == f1k as int);
                    assert(!(-(EST_LIMIT as int) < f1s[k as int] < EST_LIMIT as int));
                    assert(!bounded(f1s, EST_LIMIT as int));
                    assert(gmedian_step_spec(s, eps as int, o1, o2) == GmStep::Stuck);
                }
                return GmRound::Stuck;
            }
            f1.push(f1k as i64);
            k = k + 1;
        }
        let mut f2: Vec<i64> = Vec::new();
        let mut k2: usize = 0;
        while k2 < d
            invariant
                0 <= k2 <= d,
                d == s[0].len(),
                s == self@,
                self.wf(),
                eps >= 1,
                o1 == ints(op1@),
                o2 == ints(op2@),
                o2.len() == d,
                bounded(o2, EST_LIMIT as int),
                op2@.len() == d,
                w@.len() == d,
                ints(w@) == vunit_spec(eccvec_spec(s, o2)),
                forall|t: int| 0 <= t < d ==> -(SCALE as int) <= #[trigger] (w@[t] as int)
                    <= SCALE as int,
                -(OP_LIMIT as i128) < b < OP_LIMIT as i128,
                b as int == gm_b_spec(s, o1, o2),
                vmag_spec(eccvec_spec(s, o1)) != 0,
                vmag_spec(eccvec_spec(s, o2)) != 0,
                gm_den2_spec(s, o1, o2) > 0,
                f1@.len() == d,
                f1s == gm_f1_spec(s, o1, o2),
                f2s == gm_f2_spec(s, o1, o2),
                forall|t: int| 0 <= t < d ==> #[trigger] (f1@[t] as int) == f1s[t],
                forall|t: int| 0 <= t < d ==> -(EST_LIMIT as int) < #[trigger] (f1@[t] as int)
                    < EST_LIMIT as int,
                f2@.len() == k2,
                forall|t: int| 0 <= t < k2 ==> #[trigger] (f2@[t] as int) == f2s[t],
                forall|t: int| 0 <= t < k2 ==> -(EST_LIMIT as int) < #[trigger] (f2@[t] as int)
                    < EST_LIMIT as int,
            decreases d - k2,
        {
            proof {
                assert(-((OP_LIMIT as int) * (SCALE as int)) <= (b as int) * (
                w@[k2 as int] as int) <= (OP_LIMIT as int) * (SCALE as int)) by (nonlinear_arith)
                    requires
                        -(OP_LIMIT as int) < (b as int) && (b as int) < OP_LIMIT as int,
                        -(SCALE as int) <= (w@[k2 as int] as int) && (w@[k2 as int] as int)
                            <= SCALE as int,
                ;
                vstd::arithmetic::mul::lemma_mul_is_commutative(OP_LIMIT as int, SCALE as int);
                lemma_div_trunc_bound(
                    (b as int) * (w@[k2 as int] as int),
                    SCALE as int,
                    OP_LIMIT as int,
                );
                assert(ints(w@)[k2 as int] == w@[k2 as int] as int);
                assert(f2s[k2 as int] == o2[k2 as int] + div_trunc(
                    (b as int) * (w@[k2 as int] as int),
                    SCALE as int,
                ));
            }
            let t = div_i128(b * (w[k2] as i128), SCALE as i128);
            let f2k = (op2[k2] as i128) + t;
            if f2k >= EST_LIMIT as i128 || f2k <= -(EST_LIMIT as i128) {
                proof {
                    assert(f2s[k2 as int] == f2k as int);
                    assert(!(-(EST_LIMIT as int) < f2s[k2 as int] < EST_LIMIT as int));
                    assert(!bounded(f2s, EST_LIMIT as int));
                    assert(gmedian_step_spec(s, eps as int, o1, o2) == GmStep::Stuck);
                }
                return GmRound::Stuck;
            }
            f2.push(f2k as i64);
            k2 = k2 + 1;
        }
        proof {
            assert forall|t: int| 0 <= t < f1@.len() implies ints(f1@)[t] == f1s[t] by {
                assert(ints(f1@)[t] == f1@[t] as int);
            }
            assert(ints(f1@) =~= f1s);
            assert forall|t: int| 0 <= t < f2@.len() implies ints(f2@)[t] == f2s[t] by {
                assert(ints(f2@)[t] == f2@[t] as int);
            }
            assert(ints(f2@) =~= f2s);
            assert forall|t: int| 0 <= t < ints(f1@).len() implies -(EST_LIMIT as int) < #[trigger]
                ints(f1@)[t] < EST_LIMIT as int by {
                assert(ints(f1@)[t] == f1@[t] as int);
            }
            assert forall|t: int| 0 <= t < ints(f2@).len() implies -(EST_LIMIT as int) < #[trigger]
                ints(f2@)[t] < EST_LIMIT as int by {
                assert(ints(f2@)[t] == f2@[t] as int);
            }
        }
        let dist = dist_raw(&f1, &f2);
        if dist < eps {
            let ghost mids = gm_mid_spec(s, o1, o2);
            let mut mid: Vec<i64> = Vec::new();
            let mut k3: usize = 0;
            while k3 < d
                invariant
                    0 <= k3 <= d,
                    f1@.len() == d,
                    f2@.len() == d,
                    ints(f1@) == f1s,
                    ints(f2@) == f2s,
                    f1s.len() == d,
                    f2s.len() == d,
                    f1s == gm_f1_spec(s, o1, o2),
                    f2s == gm_f2_spec(s, o1, o2),
                    mids == gm_mid_spec(s, o1, o2),
                    bounded(ints(f1@), EST_LIMIT as int),
                    bounded(ints(f2@), EST_LIMIT as int),
                    mid@.len() == k3,
                    forall|t: int| 0 <= t < k3 ==> #[trigger] (mid@[t] as int) == mids[t],
                    forall|t: int| 0 <= t < k3 ==> -(EST_LIMIT as int) < #[trigger] (
                    mid@[t] as int) < EST_LIMIT as int,
                decreases d - k3,
            {
                proof {
                    assert(ints(f1@)[k3 as int] == f1@[k3 as int] as int);
                    assert(ints(f2@)[k3 as int] == f2@[k3 as int] as int);
                    lemma_div_trunc_bound(
                        f1@[k3 as int] as int + f2@[k3 as int] as int,
                        2,
                        EST_LIMIT as int - 1,
                    );
                    assert(mids[k3 as int] == div_trunc(f1s[k3 as int] + f2s[k3 as int], 2));
                }
                let m3 = div_i128((f1[k3] as i128) + (f2[k3] as i128), 2);
                mid.push(m3 as i64);
                k3 = k3 + 1;
            }
            proof {
                assert forall|t: int| 0 <= t < mid@.len() implies ints(mid@)[t] == mids[t] by {
                    assert(ints(mid@)[t] == mid@[t] as int);
                }
                assert(ints(mid@) =~= mids);
                assert forall|t: int| 0 <= t < ints(mid@).len() implies -(EST_LIMIT as int)
                    < #[trigger] ints(mid@)[t] < EST_LIMIT as int by {
                    assert(ints(mid@)[t] == mid@[t] as int);
                }
                assert(gmedian_step_spec(s, eps as int, o1, o2) == GmStep::Done(mids));
            }
            return GmRound::Done(mid);
        }
        proof {
            assert(gmedian_step_spec(s, eps as int, o1, o2) == GmStep::Next(f1s, f2s));
        }
        GmRound::Next(f1, f2)
    }

    /// Two-point secant iteration for the geometric median: two estimates
    /// move along their unit eccentricity directions toward the root of
    /// the eccentricity field; when they come within `eps` of each other
    /// (plain distance), their midpoint is returned.  Fails with
    /// `DegenerateVector` when an eccentricity direction vanishes or all
    /// points coincide with the seed, and with `NonConvergent` when the
    /// directions become too close to parallel for the 2x2 solve, a move
    /// leaves the coordinate bound, or `MAX_ITERS` rounds did not
    /// converge.
    pub fn gmedian(&self, eps: i64) -> (r: Result<Vec<i64>, StatsError>)
        requires
            self.wf(),
            eps >= 1,
        ensures
            match r {
                Ok(g) => {
                    &&& gmedian_spec(self@, eps as int) == SolveOutcome::Converged(ints(g@))
                    &&& bounded(ints(g@), EST_LIMIT as int)
                    &&& g@.len() == self@[0].len()
                },
                Err(StatsError::DegenerateVector) => gmedian_spec(self@, eps as int)
                    == SolveOutcome::Degenerate,
                Err(StatsError::NonConvergent) => gmedian_spec(self@, eps as int)
                    == SolveOutcome::Exhausted,
                Err(_) => false,
            },
    {
        let ghost s = self@;
        let d = self.dim();
        let mut op1 = match self.firstpoint() {
            Ok(fp) => fp,
            Err(StatsError::DegenerateVector) => {
                return Err(StatsError::DegenerateVector);
            },
            Err(_) => {
                return Err(StatsError::NonConvergent);
            },
        };
        let mut op2 = self.acentroid();
        let mut iter: usize = 0;
        loop
            invariant
                s == self@,
                self.wf(),
                d == s[0].len(),
                eps >= 1,
                op1@.len() == d,
                op2@.len() == d,
                bounded(ints(op1@), EST_LIMIT as int),
                bounded(ints(op2@), EST_LIMIT as int),
                0 <= iter <= MAX_ITERS,
                gmedian_iter_spec(s, eps as int, ints(op1@), ints(op2@), (MAX_ITERS - iter) as nat)
                    == gmedian_spec(s, eps as int),
            decreases MAX_ITERS - iter,
        {
            match self.gm_step(eps, &op1, &op2) {
                GmRound::Degenerate => {
                    return Err(StatsError::DegenerateVector);
                },
                GmRound::Stuck => {
                    return Err(StatsError::NonConvergent);
                },
                GmRound::Done(g) => {
                    return Ok(g);
                },
                GmRound::Next(f1, f2) => {
                    if iter == MAX_ITERS {
                        return Err(StatsError::NonConvergent);
                    }
                    op1 = f1;
                    op2 = f2;
                    iter = iter + 1;
                },
            }
        }
    }
}


/// What one scalar-secant round does.
pub enum SmStep {
    Done(Seq<int>),
    Stuck,
    Next(Seq<int>, int),
}

/// Scalar eccentricity magnitude at `p2`.
pub open spec fn sm_e2mag_spec(s: Seq<Seq<int>>, p2: Seq<int>) -> int {
    vmag_spec(eccvec_spec(s, p2))
}

/// The secant denominator: the difference of the two successive
/// eccentricity magnitudes while they decrease, else their sum — an
/// empirical guard against oscillation.
pub open spec fn sm_ed_spec(s: Seq<Seq<int>>, p2: Seq<int>, e1mag: int) -> int {
    let e2mag = sm_e2mag_spec(s, p2);
    if e1mag > e2mag {
        e1mag - e2mag
    } else {
        e1mag + e2mag
    }
}

/// The secant step factor: the distance of the two estimates over the
/// eccentricity-magnitude denominator, in fixed-point units.
pub open spec fn sm_scale_spec(s: Seq<Seq<int>>, p1: Seq<int>, p2: Seq<int>, e1mag: int) -> int {
    div_trunc(vdist_spec(p1, p2) * (SCALE as int), sm_ed_spec(s, p2, e1mag))
}

/// The next estimate: `p2` moved along its eccentricity vector by the
/// secant step factor.
pub open spec fn sm_newp_spec(s: Seq<Seq<int>>, p1: Seq<int>, p2: Seq<int>, e1mag: int)
    -> Seq<int> {
    Seq::new(
        p2.len(),
        |k: int| p2[k] + div_trunc(
            eccvec_spec(s, p2)[k] * sm_scale_spec(s, p1, p2, e1mag),
            SCALE as int,
        ),
    )
}

/// One round of the scalar secant iteration: converged when the
/// eccentricity magnitude at `p2` falls below `eps`; stuck when the next
/// estimate leaves the coordinate bound.
pub open spec fn smedian_step_spec(
    s: Seq<Seq<int>>,
    eps: int,
    p1: Seq<int>,
    p2: Seq<int>,
    e1mag: int,
) -> SmStep {
    if sm_e2mag_spec(s, p2) < eps {
        SmStep::Done(p2)
    } else if !bounded(sm_newp_spec(s, p1, p2, e1mag), EST_LIMIT as int) {
        SmStep::Stuck
    } else {
        SmStep::Next(sm_newp_spec(s, p1, p2, e1mag), sm_e2mag_spec(s, p2))
    }
}

/// The scalar secant iteration with `fuel` further rounds allowed.
pub open spec fn smedian_iter_spec(
    s: Seq<Seq<int>>,
    eps: int,
    p1: Seq<int>,
    p2: Seq<int>,
    e1mag: int,
    fuel: nat,
) -> SolveOutcome
    decreases fuel,
{
    match smedian_step_spec(s, eps, p1, p2, e1mag) {
        SmStep::Done(g) => SolveOutcome::Converged(g),
        SmStep::Stuck => SolveOutcome::Exhausted,
        SmStep::Next(np, e2m) => if fuel == 0 {
            SolveOutcome::Exhausted
        } else {
            smedian_iter_spec(s, eps, p2, np, e2m, (fuel - 1) as nat)
        },
    }
}

/// The second seed of the scalar secant scheme: the first point moved
/// along its eccentricity vector by `|p1| / (|e1| * n)`.
pub open spec fn sm_seed_spec(s: Seq<Seq<int>>, p1: Seq<int>) -> Seq<int> {
    let e1 = eccvec_spec(s, p1);
    let fac = div_trunc(
        vmag_spec(p1) * (SCALE as int),
        vmag_spec(e1) * (s.len() as int),
    );
    Seq::new(p1.len(), |k: int| p1[k] + div_trunc(e1[k] * fac, SCALE as int))
}

/// The whole scalar secant run: seeded at the first point and its moved
/// companion, at most `MAX_ITERS` rounds.
pub open spec fn smedian_spec(s: Seq<Seq<int>>, eps: int) -> SolveOutcome {
    if bp_rsum(s, zero_seq(s[0].len()), s.len() as int) == 0 {
        SolveOutcome::Degenerate
    } else {
        let p1 = next_estimate_spec(s, zero_seq(s[0].len()));
        if !bounded(p1, EST_LIMIT as int) {
            SolveOutcome::Exhausted
        } else if vmag_spec(eccvec_spec(s, p1)) == 0 {
            SolveOutcome::Degenerate
        } else if !bounded(sm_seed_spec(s, p1), EST_LIMIT as int) {
            SolveOutcome::Exhausted
        } else {
            smedian_iter_spec(
                s,
                eps,
                p1,
                sm_seed_spec(s, p1),
                vmag_spec(eccvec_spec(s, p1)),
                MAX_ITERS as nat,
            )
        }
    }
}

/// One executable scalar secant round.
enum SmRound {
    Done(Vec<i64>),
    Stuck,
    Next(Vec<i64>, i64),
}

/// An owned copy of a vector.
fn copy_vec(v: &Vec<i64>) -> (r: Vec<i64>)
    ensures
        r@ == v@,
{
    let mut r: Vec<i64> = Vec::new();
    let mut i: usize = 0;
    while i < v.len()
        invariant
            0 <= i <= v@.len(),
            r@.len() == i,
            forall|k: int| 0 <= k < i ==> #[trigger] r@[k] == v@[k],
        decreases v@.len() - i,
    {
        r.push(v[i]);
        i = i + 1;
    }
    proof {
        assert(r@ =~= v@);
    }
    r
}

impl PointSet {
    /// One round of the scalar secant iteration.
    fn sm_step(&self, eps: i64, p1: &Vec<i64>, p2: &Vec<i64>, e1mag: i64) -> (r: SmRound)
        requires
            self.wf(),
            eps >= 1,
            bounded(ints(p1@), EST_LIMIT as int),
            bounded(ints(p2@), EST_LIMIT as int),
            p1@.len() == self@[0].len(),
            p2@.len() == self@[0].len(),
            0 <= e1mag < 0x200000000000000i64,
        ensures
            match r {
                SmRound::Done(g) => {
                    &&& smedian_step_spec(self@, eps as int, ints(p1@), ints(p2@), e1mag as int)
                        == SmStep::Done(ints(g@))
                    &&& ints(g@) == ints(p2@)
                    &&& bounded(ints(g@), EST_LIMIT as int)
                    &&& g@.len() == self@[0].len()
                },
                SmRound::Stuck => smedian_step_spec(
                    self@,
                    eps as int,
                    ints(p1@),
                    ints(p2@),
                    e1mag as int,
                ) == SmStep::Stuck,
                SmRound::Next(np, e2m) => {
                    &&& smedian_step_spec(self@, eps as int, ints(p1@), ints(p2@), e1mag as int)
                        == SmStep::Next(ints(np@), e2m as int)
                    &&& bounded(ints(np@), EST_LIMIT as int)
                    &&& np@.len() == self@[0].len()
                    &&& 0 <= e2m < 0x200000000000000i64
                },
            },
    {
        let ghost s = self@;
        let ghost q1 = ints(p1@);
        let ghost q2 = ints(p2@);
        let n = self.len();
        let d = self.dim();
        let e2v = match self.eccnonmember(p2) {
            Ok(v) => v,
            Err(_) => {
                proof {
                    assert(false);
                }
                return SmRound::Stuck;
            },
        };
        proof {
            assert forall|k: int| 0 <= k < ints(e2v@).len() implies -(OP_LIMIT as int) < #[trigger]
                ints(e2v@)[k] < OP_LIMIT as int by {
                assert(ints(e2v@)[k] == e2v@[k] as int);
                assert((n as int) * (SCALE as int) < OP_LIMIT as int) by (nonlinear_arith)
                    requires
                        0 <= n as int <= COUNT_LIMIT as int,
                ;
            }
        }
        let e2mag = mag_raw(&e2v);
        if e2mag < eps {
            return SmRound::Done(copy_vec(p2));
        }
        let ed = if e1mag > e2mag {
            e1mag - e2mag
        } else {
            e1mag + e2mag
        };
        proof {
            assert(ed as int == sm_ed_spec(s, q2, e1mag as int));
            assert(ed >= 1);
        }
        let dist12 = dist_raw(p1, p2);
        proof {
            assert((0x20000000000000000000int) * (ed as int) >= (dist12 as int) * (SCALE as int))
                by (nonlinear_arith)
                requires
                    ed as int >= 1,
                    0 <= (dist12 as int),
                    (dist12 as int) < 0x200000000000000int,
            ;
            assert(-(0x20000000000000000000int * (ed as int)) <= (dist12 as int) * (SCALE as int))
                by (nonlinear_arith)
                requires
                    ed as int >= 1,
                    0 <= (dist12 as int),
            ;
            vstd::arithmetic::mul::lemma_mul_is_commutative(0x20000000000000000000int, ed as int);
            lemma_div_trunc_bound(
                (dist12 as int) * (SCALE as int),
                ed as int,
                0x20000000000000000000int,
            );
        }
        let scale = div_i128((dist12 as i128) * (SCALE as i128), ed as i128);
        proof {
            assert(scale as int == sm_scale_spec(s, q1, q2, e1mag as int));
        }
        let ghost nps = sm_newp_spec(s, q1, q2, e1mag as int);
        let mut np: Vec<i64> = Vec::new();
        let mut k: usize = 0;
        while k < d
            invariant
                0 <= k <= d,
                d == s[0].len(),
                s == self@,
                self.wf(),
                eps >= 1,
                q1 == ints(p1@),
                q2 == ints(p2@),
                q2.len() == d,
                bounded(q2, EST_LIMIT as int),
                p2@.len() == d,
                e2v@.len() == d,
                ints(e2v@) == eccvec_spec(s, q2),
                forall|t: int|
                    0 <= t < d ==> -((s.len() as int) * (SCALE as int)) <= #[trigger] (
                    e2v@[t] as int) <= (s.len() as int) * (SCALE as int),
                s.len() <= COUNT_LIMIT,
                -0x40000000000000000000i128 < scale < 0x40000000000000000000i128,
                scale as int == sm_scale_spec(s, q1, q2, e1mag as int),
                sm_e2mag_spec(s, q2) >= eps,
                nps == sm_newp_spec(s, q1, q2, e1mag as int),
                np@.len() == k,
                forall|t: int| 0 <= t < k ==> #[trigger] (np@[t] as int) == nps[t],
                forall|t: int| 0 <= t < k ==> -(EST_LIMIT as int) < #[trigger] (np@[t] as int)
                    < EST_LIMIT as int,
            decreases d - k,
        {
            proof {
                assert(-((COUNT_LIMIT as int) * (SCALE as int)) <= (e2v@[k as int] as int) && (e2v@[k as int] as int) <= (
                COUNT_LIMIT as int) * (SCALE as int)) by (nonlinear_arith)
                    requires
                        -((s.len() as int) * (SCALE as int)) <= (e2v@[k as int] as int)
                            && (e2v@[k as int] as int) <= (s.len() as int) * (SCALE as int),
                        0 <= s.len() as int <= COUNT_LIMIT as int,
                ;
                assert(-(0x10000000000000000000000000000int) <= (e2v@[k as int] as int) * (
                scale as int) <= 0x10000000000000000000000000000int) by (nonlinear_arith)
                    requires
                        -((COUNT_LIMIT as int) * (SCALE as int)) <= (e2v@[k as int] as int) && (
                        e2v@[k as int] as int) <= (COUNT_LIMIT as int) * (SCALE as int),
                        -0x40000000000000000000int < (scale as int) && (scale as int)
                            < 0x40000000000000000000int,
                ;
                assert((0x100000000000000000000000int) * (SCALE as int)
                    == 0x10000000000000000000000000000int);
                vstd::arithmetic::mul::lemma_mul_is_commutative(
                    0x100000000000000000000000int,
                    SCALE as int,
                );
                lemma_div_trunc_bound(
                    (e2v@[k as int] as int) * (scale as int),
                    SCALE as int,
                    0x100000000000000000000000int,
                );
                assert(ints(e2v@)[k as int] == e2v@[k as int] as int);
                assert(nps[k as int] == q2[k as int] + div_trunc(
                    (e2v@[k as int] as int) * (scale as int),
                    SCALE as int,
                ));
            }
            let t = div_i128((e2v[k] as i128) * scale, SCALE as i128);
            let npk = (p2[k] as i128) + t;
            if npk >= EST_LIMIT as i128 || npk <= -(EST_LIMIT as i128) {
                proof {
                    assert(nps[k as int] == npk as int);
                    assert(!(-(EST_LIMIT as int) < nps[k as int] < EST_LIMIT as int));
                    assert(!bounded(nps, EST_LIMIT as int));
                    assert(smedian_step_spec(s, eps as int, q1, q2, e1mag as int)
                        == SmStep::Stuck);
                }
                return SmRound::Stuck;
            }
            np.push(npk as i64);
            k = k + 1;
        }
        proof {
            assert forall|t: int| 0 <= t < np@.len() implies ints(np@)[t] == nps[t] by {
                assert(ints(np@)[t] == np@[t] as int);
            }
            assert(ints(np@) =~= nps);
            assert forall|t: int| 0 <= t < ints(np@).len() implies -(EST_LIMIT as int) < #[trigger]
                ints(np@)[t] < EST_LIMIT as int by {
                assert(ints(np@)[t] == np@[t] as int);
            }
            assert(smedian_step_spec(s, eps as int, q1, q2, e1mag as int) == SmStep::Next(
                ints(np@),
                sm_e2mag_spec(s, q2),
            ));
        }
        SmRound::Next(np, e2mag)
    }

    /// Scalar secant iteration for the geometric median: treats the
    /// scalar eccentricity magnitude as the root-finding objective and
    /// returns the estimate at which it falls below `eps`.  Fails with
    /// `DegenerateVector` when the seed's eccentricity vanishes or all
    /// points lie at the origin, and with `NonConvergent` when a move
    /// leaves the coordinate bound or `MAX_ITERS` rounds did not
    /// converge.
    pub fn smedian(&self, eps: i64) -> (r: Result<Vec<i64>, StatsError>)
        requires
            self.wf(),
            eps >= 1,
        ensures
            match r {
                Ok(g) => {
                    &&& smedian_spec(self@, eps as int) == SolveOutcome::Converged(ints(g@))
                    &&& bounded(ints(g@), EST_LIMIT as int)
                    &&& g@.len() == self@[0].len()
                },
                Err(StatsError::DegenerateVector) => smedian_spec(self@, eps as int)
                    == SolveOutcome::Degenerate,
                Err(StatsError::NonConvergent) => smedian_spec(self@, eps as int)
                    == SolveOutcome::Exhausted,
                Err(_) => false,
            },
    {
        let ghost s = self@;
        let n = self.len();
        let d = self.dim();
        let mut p1v = match self.firstpoint() {
            Ok(fp) => fp,
            Err(StatsError::DegenerateVector) => {
                return Err(StatsError::DegenerateVector);
            },
            Err(_) => {
                return Err(StatsError::NonConvergent);
            },
        };
        let e1v = match self.eccnonmember(&p1v) {
            Ok(v) => v,
            Err(_) => {
                proof {
                    assert(false);
                }
                return Err(StatsError::NonConvergent);
            },
        };
        proof {
            assert forall|k: int| 0 <= k < ints(e1v@).len() implies -(OP_LIMIT as int) < #[trigger]
                ints(e1v@)[k] < OP_LIMIT as int by {
                assert(ints(e1v@)[k] == e1v@[k] as int);
                assert((n as int) * (SCALE as int) < OP_LIMIT as int) by (nonlinear_arith)
                    requires
                        0 <= n as int <= COUNT_LIMIT as int,
                ;
            }
        }
        let mut e1mag = mag_raw(&e1v);
        if e1mag == 0 {
            return Err(StatsError::DegenerateVector);
        }
        let p1mag = mag_raw(&p1v);
        proof {
            assert((e1mag as int) * (n as int) >= 1) by (nonlinear_arith)
                requires
                    (e1mag as int) >= 1,
                    (n as int) >= 1,
            ;
            assert((e1mag as int) * (n as int) <= 0x800000000000000000000int)
                by (nonlinear_arith)
                requires
                    1 <= (e1mag as int) && (e1mag as int) < 0x200000000000000int,
                    1 <= n as int <= COUNT_LIMIT as int,
            ;
            assert((0x20000000000000000000int) * ((e1mag as int) * (n as int)) >= (p1mag as int) * (
            SCALE as int)) by (nonlinear_arith)
                requires
                    (e1mag as int) * (n as int) >= 1,
                    0 <= (p1mag as int) && (p1mag as int) < 0x200000000000000int,
            ;
            assert(-(0x20000000000000000000int * ((e1mag as int) * (n as int))) <= (p1mag as int) * (
            SCALE as int)) by (nonlinear_arith)
                requires
                    (e1mag as int) * (n as int) >= 1,
                    0 <= (p1mag as int),
            ;
            vstd::arithmetic::mul::lemma_mul_is_commutative(
                0x20000000000000000000int,
                (e1mag as int) * (n as int),
            );
            lemma_div_trunc_bound(
                (p1mag as int) * (SCALE as int),
                (e1mag as int) * (n as int),
                0x20000000000000000000int,
            );
        }
        let fac = div_i128((p1mag as i128) * (SCALE as i128), (e1mag as i128) * (n as i128));
        let ghost p2s = sm_seed_spec(s, ints(p1v@));
        let mut p2v: Vec<i64> = Vec::new();
        let mut k: usize = 0;
        while k < d
            invariant
                0 <= k <= d,
                d == s[0].len(),
                s == self@,
                self.wf(),
                p1v@.len() == d,
                bounded(ints(p1v@), EST_LIMIT as int),
                e1v@.len() == d,
                ints(e1v@) == eccvec_spec(s, ints(p1v@)),
                forall|t: int|
                    0 <= t < d ==> -((s.len() as int) * (SCALE as int)) <= #[trigger] (
                    e1v@[t] as int) <= (s.len() as int) * (SCALE as int),
                s.len() <= COUNT_LIMIT,
                -0x40000000000000000000i128 < fac < 0x40000000000000000000i128,
                fac as int == div_trunc(
                    vmag_spec(ints(p1v@)) * (SCALE as int),
                    vmag_spec(eccvec_spec(s, ints(p1v@))) * (s.len() as int),
                ),
                p2s == sm_seed_spec(s, ints(p1v@)),
                bp_rsum(s, zero_seq(s[0].len()), s.len() as int) != 0,
                ints(p1v@) == next_estimate_spec(s, zero_seq(s[0].len())),
                vmag_spec(eccvec_spec(s, ints(p1v@))) != 0,
                p2v@.len() == k,
                forall|t: int| 0 <= t < k ==> #[trigger] (p2v@[t] as int) == p2s[t],
                forall|t: int| 0 <= t < k ==> -(EST_LIMIT as int) < #[trigger] (p2v@[t] as int)
                    < EST_LIMIT as int,
            decreases d - k,
        {
            proof {
                assert(-((COUNT_LIMIT as int) * (SCALE as int)) <= (e1v@[k as int] as int) && (e1v@[k as int] as int) <= (
                COUNT_LIMIT as int) * (SCALE as int)) by (nonlinear_arith)
                    requires
                        -((s.len() as int) * (SCALE as int)) <= (e1v@[k as int] as int)
                            && (e1v@[k as int] as int) <= (s.len() as int) * (SCALE as int),
                        0 <= s.len() as int <= COUNT_LIMIT as int,
                ;
                assert(-(0x10000000000000000000000000000int) <= (e1v@[k as int] as int) * (
                fac as int) <= 0x10000000000000000000000000000int) by (nonlinear_arith)
                    requires
                        -((COUNT_LIMIT as int) * (SCALE as int)) <= (e1v@[k as int] as int) && (
                        e1v@[k as int] as int) <= (COUNT_LIMIT as int) * (SCALE as int),
                        -0x40000000000000000000int < (fac as int) && (fac as int)
                            < 0x40000000000000000000int,
                ;
                assert((0x100000000000000000000000int) * (SCALE as int)
                    == 0x10000000000000000000000000000int);
                vstd::arithmetic::mul::lemma_mul_is_commutative(
                    0x100000000000000000000000int,
                    SCALE as int,
                );
                lemma_div_trunc_bound(
                    (e1v@[k as int] as int) * (fac as int),
                    SCALE as int,
                    0x100000000000000000000000int,
                );
                assert(ints(e1v@)[k as int] == e1v@[k as int] as int);
                assert(p2s[k as int] == ints(p1v@)[k as int] + div_trunc(
                    (e1v@[k as int] as int) * (fac as int),
                    SCALE as int,
                ));
                assert(ints(p1v@)[k as int] == p1v@[k as int] as int);
            }
            let t = div_i128((e1v[k] as i128) * fac, SCALE as i128);
            let p2k = (p1v[k] as i128) + t;
            if p2k >= EST_LIMIT as i128 || p2k <= -(EST_LIMIT as i128) {
                proof {
                    assert(p2s[k as int] == p2k as int);
                    assert(!(-(EST_LIMIT as int) < p2s[k as int] < EST_LIMIT as int));
                    assert(!bounded(p2s, EST_LIMIT as int));
                }
                return Err(StatsError::NonConvergent);
            }
            p2v.push(p2k as i64);
            k = k + 1;
        }
        proof {
            assert forall|t: int| 0 <= t < p2v@.len() implies ints(p2v@)[t] == p2s[t] by {
                assert(ints(p2v@)[t] == p2v@[t] as int);
            }
            assert(ints(p2v@) =~= p2s);
            assert forall|t: int| 0 <= t < ints(p2v@).len() implies -(EST_LIMIT as int)
                < #[trigger] ints(p2v@)[t] < EST_LIMIT as int by {
                assert(ints(p2v@)[t] == p2v@[t] as int);
            }
        }
        let mut iter: usize = 0;
        loop
            invariant
                s == self@,
                self.wf(),
                d == s[0].len(),
                eps >= 1,
                p1v@.len() == d,
                p2v@.len() == d,
                bounded(ints(p1v@), EST_LIMIT as int),
                bounded(ints(p2v@), EST_LIMIT as int),
                0 <= e1mag < 0x200000000000000i64,
                0 <= iter <= MAX_ITERS,
                smedian_iter_spec(
                    s,
                    eps as int,
                    ints(p1v@),
                    ints(p2v@),
                    e1mag as int,
                    (MAX_ITERS - iter) as nat,
                ) == smedian_spec(s, eps as int),
            decreases MAX_ITERS - iter,
        {
            match self.sm_step(eps, &p1v, &p2v, e1mag) {
                SmRound::Done(g) => {
                    return Ok(g);
                },
                SmRound::Stuck => {
                    return Err(StatsError::NonConvergent);
                },
                SmRound::Next(np, e2m) => {
                    if iter == MAX_ITERS {
                        return Err(StatsError::NonConvergent);
                    }
                    p1v = p2v;
                    p2v = np;
                    e1mag = e2m;
                    iter = iter + 1;
                },
            }
        }
    }
}


/// The algorithm choice for the geometric median: the weighted fixed
/// point iteration, the two-point secant, or the scalar secant.  The
/// schemes have distinct convergence profiles and are kept as named
/// alternatives rather than merged.
#[derive(Debug, Clone, Copy, PartialEq, Eq, Structural)]
pub enum MedianScheme {
    Weighted,
    TwoPoint,
    Secant,
}

/// The outcome of the chosen scheme.
pub open spec fn geometric_median_spec(s: Seq<Seq<int>>, eps: int, scheme: MedianScheme)
    -> SolveOutcome {
    match scheme {
        MedianScheme::Weighted => nmedian_spec(s, eps),
        MedianScheme::TwoPoint => gmedian_spec(s, eps),
        MedianScheme::Secant => smedian_spec(s, eps),
    }
}

impl PointSet {
    /// The geometric median by the chosen scheme.
    pub fn geometric_median(&self, scheme: MedianScheme, eps: i64) -> (r: Result<
        Vec<i64>,
        StatsError,
    >)
        requires
            self.wf(),
            eps >= 1,
        ensures
            match r {
                Ok(g) => {
                    &&& geometric_median_spec(self@, eps as int, scheme)
                        == SolveOutcome::Converged(ints(g@))
                    &&& bounded(ints(g@), EST_LIMIT as int)
                    &&& g@.len() == self@[0].len()
                },
                Err(StatsError::DegenerateVector) => geometric_median_spec(
                    self@,
                    eps as int,
                    scheme,
                ) == SolveOutcome::Degenerate,
                Err(StatsError::NonConvergent) => geometric_median_spec(self@, eps as int, scheme)
                    == SolveOutcome::Exhausted,
                Err(_) => false,
            },
    {
        match scheme {
            MedianScheme::Weighted => self.nmedian(eps),
            MedianScheme::TwoPoint => self.gmedian(eps),
            MedianScheme::Secant => self.smedian(eps),
        }
    }

    /// Trend vector between two point sets of one dimension: the
    /// geometric median of `other` minus the geometric median of `self`
    /// (both by the weighted fixed-point scheme).  A robust relationship
    /// between two unordered sets; their point counts may differ.
    pub fn trend(&self, eps: i64, other: &PointSet) -> (r: Result<Vec<i64>, StatsError>)
        requires
            self.wf(),
            other.wf(),
            eps >= 1,
        ensures
            match r {
                Ok(t) => {
                    &&& self@[0].len() == other@[0].len()
                    &&& nmedian_spec(self@, eps as int) is Converged
                    &&& nmedian_spec(other@, eps as int) is Converged
                    &&& ints(t@) == vsub_spec(
                        nmedian_spec(other@, eps as int)->Converged_0,
                        nmedian_spec(self@, eps as int)->Converged_0,
                    )
                },
                Err(StatsError::DimensionMismatch) => self@[0].len() != other@[0].len(),
                Err(StatsError::DegenerateVector) => {
                    &&& self@[0].len() == other@[0].len()
                    &&& (nmedian_spec(self@, eps as int) == SolveOutcome::Degenerate || (
                    nmedian_spec(self@, eps as int) is Converged && nmedian_spec(
                        other@,
                        eps as int,
                    ) == SolveOutcome::Degenerate))
                },
                Err(StatsError::NonConvergent) => {
                    &&& self@[0].len() == other@[0].len()
                    &&& (nmedian_spec(self@, eps as int) == SolveOutcome::Exhausted || (
                    nmedian_spec(self@, eps as int) is Converged && nmedian_spec(
                        other@,
                        eps as int,
                    ) == SolveOutcome::Exhausted))
                },
                Err(_) => false,
            },
    {
        if self.dim() != other.dim() {
            return Err(StatsError::DimensionMismatch);
        }
        let m1 = match self.nmedian(eps) {
            Ok(g) => g,
            Err(e) => {
                return Err(e);
            },
        };
        let m2 = match other.nmedian(eps) {
            Ok(g) => g,
            Err(e) => {
                return Err(e);
            },
        };
        Ok(vsub_raw(&m2, &m1))
    }
}

/// Law: the trend of a point set against itself is the zero vector.  Both
/// runs of the solver are the same mathematical function of the set, so
/// they return one point, and its difference with itself is zero.
pub proof fn lemma_trend_same_set_zero(s: Seq<Seq<int>>, eps: int, g: Seq<int>)
    requires
        nmedian_spec(s, eps) == SolveOutcome::Converged(g),
    ensures
        vsub_spec(nmedian_spec(s, eps)->Converged_0, nmedian_spec(s, eps)->Converged_0)
            == zero_seq(g.len()),
{
    assert(vsub_spec(g, g) =~= zero_seq(g.len()));
}

} // verus!
