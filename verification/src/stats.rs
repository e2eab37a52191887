//! One-dimensional statistics of scalar samples: arithmetic mean, mean
//! with standard deviation, and median with quartiles; and the set-level
//! summaries built on them (median of eccentricities, sorted
//! eccentricities).

use vstd::prelude::*;
use crate::arith::{div_trunc, div_i128, sqrt_floor, isqrt, lemma_div_trunc_bound,
    lemma_sqrt_floor_bounds, lemma_sqrt_floor_upper};
use crate::vecops::{ints, bounded};
use crate::pointset::PointSet;
use crate::sorting::sort_by_flag;
use crate::eccentric::{eccmember_scalar_spec, all_distinct};
use crate::median::{nmedian_spec, SolveOutcome};
use crate::{StatsError, MStats, Med, OP_LIMIT, COUNT_LIMIT};

verus! {

/// Sum of the first `m` elements.
pub open spec fn sum_prefix(v: Seq<int>, m: int) -> int
    decreases m,
{
    if m <= 0 {
        0
    } else {
        sum_prefix(v, m - 1) + v[m - 1]
    }
}

/// Sum of the squares of the first `m` elements.
pub open spec fn sumsq_prefix(v: Seq<int>, m: int) -> int
    decreases m,
{
    if m <= 0 {
        0
    } else {
        sumsq_prefix(v, m - 1) + v[m - 1] * v[m - 1]
    }
}

/// The arithmetic mean, rounded toward zero.
pub open spec fn amean_spec(v: Seq<int>) -> int {
    div_trunc(sum_prefix(v, v.len() as int), v.len() as int)
}

/// The raw variance: mean of squares minus square of the mean; truncation
/// can push it a hair below zero, where the standard deviation is zero.
pub open spec fn var_raw_spec(v: Seq<int>) -> int {
    div_trunc(sumsq_prefix(v, v.len() as int), v.len() as int) - amean_spec(v) * amean_spec(v)
}

/// The standard deviation: square root of the variance, floored at zero.
pub open spec fn std_spec(v: Seq<int>) -> int {
    sqrt_floor(
        if var_raw_spec(v) < 0 {
            0
        } else {
            var_raw_spec(v)
        },
    )
}

/// Ascending order.
pub open spec fn sorted_asc(v: Seq<i64>) -> bool {
    forall|i: int, j: int| 0 <= i <= j < v.len() ==> #[trigger] v[i] <= #[trigger] v[j]
}

/// The ascending sorted permutation of a sequence; unique by
/// `lemma_sorted_unique`.
pub open spec fn sort_of(v: Seq<i64>) -> Seq<i64> {
    choose|w: Seq<i64>| w.to_multiset() == v.to_multiset() && #[trigger] sorted_asc(w)
}

/// The median of a sample: the middle of its sorted permutation, or the
/// rounded mean of the two middles when the sample size is even.
pub open spec fn median_spec(v: Seq<i64>) -> int {
    let w = sort_of(v);
    let mid = v.len() as int / 2;
    if v.len() % 2 == 1 {
        w[mid] as int
    } else {
        div_trunc(w[mid] as int + w[mid - 1] as int, 2)
    }
}

/// The lower quartile: the sorted permutation at a quarter.
pub open spec fn lquartile_spec(v: Seq<i64>) -> int {
    sort_of(v)[v.len() as int / 4] as int
}

/// The upper quartile: the sorted permutation at three quarters.
pub open spec fn uquartile_spec(v: Seq<i64>) -> int {
    sort_of(v)[(3 * v.len()) as int / 4] as int
}

/// Two ascending-sorted sequences holding the same multiset of values are
/// the same sequence.
pub proof fn lemma_sorted_unique(a: Seq<i64>, b: Seq<i64>)
    requires
        sorted_asc(a),
        sorted_asc(b),
        a.to_multiset() == b.to_multiset(),
    ensures
        a == b,
    decreases a.len(),
{
    a.to_multiset_ensures();
    b.to_multiset_ensures();
    if a.len() == 0 {
        assert(a =~= b);
    } else {
        assert(a.to_multiset().count(a[0]) > 0);
        assert(b.contains(a[0]));
        assert(b.to_multiset().count(b[0]) > 0);
        assert(a.contains(b[0]));
        let ia = choose|i: int| 0 <= i < a.len() && a[i] == b[0];
        let ib = choose|i: int| 0 <= i < b.len() && b[i] == a[0];
        assert(a[0] <= a[ia]);
        assert(b[0] <= b[ib]);
        assert(a[0] == b[0]);
        let at = a.remove(0);
        let bt = b.remove(0);
        assert(at.to_multiset() =~= a.to_multiset().remove(a[0]));
        assert(bt.to_multiset() =~= b.to_multiset().remove(b[0]));
        assert(at.to_multiset() == bt.to_multiset());
        assert forall|i: int, j: int| 0 <= i <= j < at.len() implies #[trigger] at[i]
            <= #[trigger] at[j] by {
            assert(at[i] == a[i + 1]);
            assert(at[j] == a[j + 1]);
        }
        assert forall|i: int, j: int| 0 <= i <= j < bt.len() implies #[trigger] bt[i]
            <= #[trigger] bt[j] by {
            assert(bt[i] == b[i + 1]);
            assert(bt[j] == b[j + 1]);
        }
        lemma_sorted_unique(at, bt);
        assert forall|i: int| 0 <= i < a.len() implies a[i] == b[i] by {
            if i > 0 {
                assert(at[i - 1] == a[i]);
                assert(bt[i - 1] == b[i]);
            }
        }
        assert(a =~= b);
    }
}

/// Every element of a sequence multiset-equal to a bounded sequence is
/// itself bounded.
pub proof fn lemma_multiset_elem_bound(w: Seq<i64>, v: Seq<i64>, b: int)
    requires
        w.to_multiset() == v.to_multiset(),
        bounded(ints(v), b),
    ensures
        bounded(ints(w), b),
{
    w.to_multiset_ensures();
    v.to_multiset_ensures();
    assert forall|k: int| 0 <= k < ints(w).len() implies -b < #[trigger] ints(w)[k] < b by {
        assert(w.contains(w[k]));
        assert(w.to_multiset().count(w[k]) > 0);
        assert(v.contains(w[k]));
        let j = choose|j: int| 0 <= j < v.len() && v[j] == w[k];
        assert(-b < ints(v)[j] < b);
        assert(ints(w)[k] == w[k] as int);
    }
}

/// Arithmetic mean of a scalar sample, rounded toward zero; fails with
/// `EmptyInput` exactly on the empty sample.
pub fn amean(v: &Vec<i64>) -> (r: Result<i64, StatsError>)
    requires
        v@.len() <= COUNT_LIMIT,
        bounded(ints(v@), OP_LIMIT as int),
    ensures
        match r {
            Ok(m) => v@.len() >= 1 && m as int == amean_spec(ints(v@)),
            Err(e) => v@.len() == 0 && e == StatsError::EmptyInput,
        },
{
    let n = v.len();
    if n == 0 {
        return Err(StatsError::EmptyInput);
    }
    let ghost q = ints(v@);
    let mut acc: i128 = 0;
    let mut i: usize = 0;
    while i < n
        invariant
            0 <= i <= n,
            n == v@.len(),
            n <= COUNT_LIMIT,
            q == ints(v@),
            bounded(q, OP_LIMIT as int),
            acc == sum_prefix(q, i as int),
        decreases n - i,
    {
        proof {
            lemma_sum_prefix_bound(q, i as int, OP_LIMIT as int);
            lemma_sum_prefix_bound(q, i as int + 1, OP_LIMIT as int);
            assert((i as int + 1) * (OP_LIMIT as int) <= (COUNT_LIMIT as int) * (OP_LIMIT as int))
                by (nonlinear_arith)
                requires
                    0 <= i as int,
                    i as int + 1 <= COUNT_LIMIT as int,
            ;
            assert(q[i as int] == v@[i as int] as int);
        }
        acc = acc + (v[i] as i128);
        i = i + 1;
    }
    proof {
        lemma_sum_prefix_bound(q, n as int, OP_LIMIT as int);
        assert((n as int) * (OP_LIMIT as int) <= (COUNT_LIMIT as int) * (OP_LIMIT as int))
            by (nonlinear_arith)
            requires
                0 <= n as int <= COUNT_LIMIT as int,
        ;
        assert((n as int) * (OP_LIMIT as int) <= (OP_LIMIT as int) * (n as int))
            by (nonlinear_arith);
        lemma_div_trunc_bound(acc as int, n as int, OP_LIMIT as int);
    }
    let m = div_i128(acc, n as i128);
    Ok(m as i64)
}

/// Sums of bounded elements are bounded.
proof fn lemma_sum_prefix_bound(v: Seq<int>, m: int, b: int)
    requires
        0 <= m <= v.len(),
        b >= 0,
        bounded(v, b),
    ensures
        -(m * b) <= sum_prefix(v, m) <= m * b,
    decreases m,
{
    if m > 0 {
        lemma_sum_prefix_bound(v, m - 1, b);
        assert(-b < v[m - 1] < b);
        assert(m * b == (m - 1) * b + b) by (nonlinear_arith);
    } else {
        assert(m * b == 0) by (nonlinear_arith)
            requires
                m == 0,
        ;
    }
}

/// Sums of squares of bounded elements are bounded.
proof fn lemma_sumsq_prefix_bound(v: Seq<int>, m: int, b: int)
    requires
        0 <= m <= v.len(),
        b >= 0,
        bounded(v, b),
    ensures
        0 <= sumsq_prefix(v, m) <= m * b * b,
    decreases m,
{
    if m > 0 {
        lemma_sumsq_prefix_bound(v, m - 1, b);
        assert(0 <= v[m - 1] * v[m - 1] <= b * b) by (nonlinear_arith)
            requires
                -b < v[m - 1] < b,
        ;
        assert(m * b * b == (m - 1) * b * b + b * b) by (nonlinear_arith);
    } else {
        assert(m * b * b == 0) by (nonlinear_arith)
            requires
                m == 0,
        ;
    }
}

/// Arithmetic mean and standard deviation of a scalar sample; fails with
/// `EmptyInput` exactly on the empty sample.
pub fn ameanstd(v: &Vec<i64>) -> (r: Result<MStats, StatsError>)
    requires
        v@.len() <= COUNT_LIMIT,
        bounded(ints(v@), OP_LIMIT as int),
    ensures
        match r {
            Ok(ms) => {
                &&& v@.len() >= 1
                &&& ms.mean as int == amean_spec(ints(v@))
                &&& ms.std as int == std_spec(ints(v@))
                &&& ms.std >= 0
            },
            Err(e) => v@.len() == 0 && e == StatsError::EmptyInput,
        },
{
    let n = v.len();
    let mean = match amean(v) {
        Ok(m) => m,
        Err(e) => {
            return Err(e);
        },
    };
    let ghost q = ints(v@);
    let mut sx2: i128 = 0;
    let mut i: usize = 0;
    while i < n
        invariant
            0 <= i <= n,
            n == v@.len(),
            n <= COUNT_LIMIT,
            q == ints(v@),
            bounded(q, OP_LIMIT as int),
            sx2 == sumsq_prefix(q, i as int),
        decreases n - i,
    {
        proof {
            lemma_sumsq_prefix_bound(q, i as int, OP_LIMIT as int);
            lemma_sumsq_prefix_bound(q, i as int + 1, OP_LIMIT as int);
            assert((i as int + 1) * (OP_LIMIT as int) * (OP_LIMIT as int) <= (COUNT_LIMIT as int)
                * (OP_LIMIT as int) * (OP_LIMIT as int)) by (nonlinear_arith)
                requires
                    0 <= i as int,
                    i as int + 1 <= COUNT_LIMIT as int,
            ;
            assert(q[i as int] == v@[i as int] as int);
            assert(0 <= (v@[i as int] as int) * (v@[i as int] as int) <= (OP_LIMIT as int) * (
            OP_LIMIT as int)) by (nonlinear_arith)
                requires
                    -(OP_LIMIT as int) < (v@[i as int] as int) && (v@[i as int] as int) < (
                    OP_LIMIT as int),
            ;
        }
        let x = v[i];
        sx2 = sx2 + (x as i128) * (x as i128);
        i = i + 1;
    }
    proof {
        lemma_sumsq_prefix_bound(q, n as int, OP_LIMIT as int);
        assert((n as int) * (OP_LIMIT as int) * (OP_LIMIT as int) <= (COUNT_LIMIT as int) * (
        OP_LIMIT as int) * (OP_LIMIT as int)) by (nonlinear_arith)
            requires
                0 <= n as int <= COUNT_LIMIT as int,
        ;
        assert((n as int) * (OP_LIMIT as int) * (OP_LIMIT as int) == (OP_LIMIT as int) * (
        OP_LIMIT as int) * (n as int)) by (nonlinear_arith);
        lemma_div_trunc_bound(sx2 as int, n as int, (OP_LIMIT as int) * (OP_LIMIT as int));
        // the mean itself is bounded by the element bound
        lemma_sum_prefix_bound(q, n as int, OP_LIMIT as int);
        assert((n as int) * (OP_LIMIT as int) == (OP_LIMIT as int) * (n as int))
            by (nonlinear_arith);
        lemma_div_trunc_bound(sum_prefix(q, n as int), n as int, OP_LIMIT as int);
        assert(-((OP_LIMIT as int) * (OP_LIMIT as int)) <= amean_spec(q) * amean_spec(q) <= (
        OP_LIMIT as int) * (OP_LIMIT as int)) by (nonlinear_arith)
            requires
                -(OP_LIMIT as int) <= amean_spec(q) <= OP_LIMIT as int,
        ;
    }
    let msq = div_i128(sx2, n as i128);
    let mm = (mean as i128) * (mean as i128);
    let varr = msq - mm;
    let varc: i128 = if varr < 0 {
        0
    } else {
        varr
    };
    proof {
        assert(varc >= 0);
        assert((varc as int) <= 2 * (OP_LIMIT as int) * (OP_LIMIT as int));
        assert(2 * (OP_LIMIT as int) * (OP_LIMIT as int) < (0x8000000000000int) * (
        0x8000000000000int)) by (nonlinear_arith);
        lemma_sqrt_floor_upper(varc as int, 0x8000000000000int);
        lemma_sqrt_floor_bounds(varc as int);
    }
    let sd = isqrt(varc as u128);
    Ok(MStats { mean, std: sd as i64 })
}

/// Median and quartiles of a scalar sample, from its ascending sorted
/// permutation; fails with `EmptyInput` exactly on the empty sample.
pub fn median(v: &Vec<i64>) -> (r: Result<Med, StatsError>)
    requires
        v@.len() <= COUNT_LIMIT,
        bounded(ints(v@), OP_LIMIT as int),
    ensures
        match r {
            Ok(m) => {
                &&& v@.len() >= 1
                &&& m.median as int == median_spec(v@)
                &&& m.lquartile as int == lquartile_spec(v@)
                &&& m.uquartile as int == uquartile_spec(v@)
            },
            Err(e) => v@.len() == 0 && e == StatsError::EmptyInput,
        },
{
    let n = v.len();
    if n == 0 {
        return Err(StatsError::EmptyInput);
    }
    let w = sort_by_flag(v, true);
    proof {
        assert(sorted_asc(w@));
        assert(exists|x: Seq<i64>|
            x.to_multiset() == v@.to_multiset() && #[trigger] sorted_asc(x));
        assert(sort_of(v@).to_multiset() == v@.to_multiset() && sorted_asc(sort_of(v@)));
        lemma_sorted_unique(w@, sort_of(v@));
        lemma_multiset_elem_bound(w@, v@, OP_LIMIT as int);
        w@.to_multiset_ensures();
        v@.to_multiset_ensures();
        assert(w@.len() == v@.len());
    }
    let mid = n / 2;
    let med: i64 = if mid * 2 < n {
        w[mid]
    } else {
        proof {
            assert(ints(w@)[mid as int] == w@[mid as int] as int);
            assert(ints(w@)[mid as int - 1] == w@[mid as int - 1] as int);
            lemma_div_trunc_bound(
                w@[mid as int] as int + w@[mid as int - 1] as int,
                2,
                OP_LIMIT as int,
            );
        }
        div_i128((w[mid] as i128) + (w[mid - 1] as i128), 2) as i64
    };
    let lq = w[n / 4];
    let uq = w[3 * n / 4];
    proof {
        assert(mid * 2 < n <==> v@.len() % 2 == 1);
    }
    Ok(Med { lquartile: lq, median: med, uquartile: uq })
}

/// The per-member scalar eccentricities of a set, as one mathematical
/// sequence.
pub open spec fn member_eccs_spec(s: Seq<Seq<int>>) -> Seq<int> {
    Seq::new(s.len(), |i: int| eccmember_scalar_spec(s, i))
}

impl PointSet {
    /// Median of eccentricities: the mean and standard deviation, and the
    /// median and quartiles, of the members' scalar eccentricities — a
    /// robust one-dimensional summary of multivariate spread.  The
    /// tolerance parameter is part of the summary interface; the pairwise
    /// field needs none, so it is not consulted.  Fails with `EmptyInput`
    /// on a single-point set and with `DegenerateVector` when two members
    /// coincide.
    pub fn moe(&self, eps: i64) -> (r: Result<(MStats, Med), StatsError>)
        requires
            self.wf(),
            eps >= 1,
        ensures
            match r {
                Ok((ms, md)) => {
                    &&& self@.len() >= 2
                    &&& all_distinct(self@)
                    &&& ms.mean as int == amean_spec(member_eccs_spec(self@))
                    &&& ms.std as int == std_spec(member_eccs_spec(self@))
                    &&& exists|se: Seq<i64>|
                        ints(se) == member_eccs_spec(self@) && md.median as int == #[trigger]
                            median_spec(se) && md.lquartile as int == lquartile_spec(se)
                            && md.uquartile as int == uquartile_spec(se)
                },
                Err(StatsError::EmptyInput) => self@.len() == 1,
                Err(StatsError::DegenerateVector) => self@.len() >= 2 && !all_distinct(self@),
                Err(_) => false,
            },
    {
        let ghost s = self@;
        let se = match self.scalarecc() {
            Ok(v) => v,
            Err(e) => {
                return Err(e);
            },
        };
        proof {
            assert forall|k: int| 0 <= k < ints(se@).len() implies ints(se@)[k]
                == member_eccs_spec(s)[k] by {
                assert(ints(se@)[k] == se@[k] as int);
            }
            assert(ints(se@) =~= member_eccs_spec(s));
            assert forall|k: int| 0 <= k < ints(se@).len() implies -(OP_LIMIT as int) < #[trigger]
                ints(se@)[k] < OP_LIMIT as int by {
                assert(ints(se@)[k] == se@[k] as int);
                assert(se@[k] as int == eccmember_scalar_spec(s, k));
                let a = crate::eccentric::eccmember_spec(s, k);
                crate::eccentric::lemma_wf_dims_member(s, k, s.len() as int);
                crate::eccentric::lemma_eccm_prefix_bound(s, k, s.len() as int);
                assert forall|t: int| 0 <= t < a.len() implies -0x800000000int < #[trigger] a[t]
                    < 0x800000000int by {
                    assert((s.len() as int) * (crate::SCALE as int) < 0x800000000int)
                        by (nonlinear_arith)
                        requires
                            0 <= s.len() as int <= COUNT_LIMIT as int,
                    ;
                }
                crate::vecops::lemma_dot_prefix_nonneg(a, a.len() as int);
                crate::vecops::lemma_dot_prefix_bound(
                    a,
                    a,
                    0x800000000int,
                    0x800000000int,
                    a.len() as int,
                );
                assert((a.len() as int) * 0x800000000int * 0x800000000int < (0x20000000000int) * (
                0x20000000000int)) by (nonlinear_arith)
                    requires
                        0 <= a.len() as int <= crate::DIM_LIMIT as int,
                ;
                lemma_sqrt_floor_upper(crate::vecops::vmagsq_spec(a), 0x20000000000int);
                lemma_sqrt_floor_bounds(crate::vecops::vmagsq_spec(a));
                let mg = crate::vecops::vmag_spec(a);
                assert(mg <= mg * (s.len() as int - 1)) by (nonlinear_arith)
                    requires
                        s.len() as int - 1 >= 1,
                        mg >= 0,
                ;
                assert(mg * (s.len() as int - 1) >= 0) by (nonlinear_arith)
                    requires
                        s.len() as int - 1 >= 1,
                        mg >= 0,
                ;
                vstd::arithmetic::mul::lemma_mul_is_commutative(mg, s.len() as int - 1);
                lemma_div_trunc_bound(mg, s.len() as int - 1, mg);
            }
        }
        let ms = match ameanstd(&se) {
            Ok(m) => m,
            Err(_) => {
                proof {
                    assert(false);
                }
                return Err(StatsError::EmptyInput);
            },
        };
        let md = match median(&se) {
            Ok(m) => m,
            Err(_) => {
                proof {
                    assert(false);
                }
                return Err(StatsError::EmptyInput);
            },
        };
        Ok((ms, md))
    }

    /// The geometric median (weighted fixed-point scheme) together with
    /// the members' scalar eccentricity magnitudes sorted ascending or
    /// descending.  Fails as the solver or the field computation does.
    pub fn sortedeccs(&self, ascending: bool, eps: i64) -> (r: Result<
        (Vec<i64>, Vec<i64>),
        StatsError,
    >)
        requires
            self.wf(),
            eps >= 1,
        ensures
            match r {
                Ok((gm, se)) => {
                    &&& nmedian_spec(self@, eps as int) == SolveOutcome::Converged(ints(gm@))
                    &&& self@.len() >= 2
                    &&& all_distinct(self@)
                    &&& exists|raw: Seq<i64>|
                        ints(raw) == member_eccs_spec(self@) && se@.to_multiset() == #[trigger]
                            raw.to_multiset()
                    &&& ascending ==> forall|i: int, j: int|
                        0 <= i <= j < se@.len() ==> #[trigger] se@[i] <= #[trigger] se@[j]
                    &&& !ascending ==> forall|i: int, j: int|
                        0 <= i <= j < se@.len() ==> #[trigger] se@[i] >= #[trigger] se@[j]
                },
                Err(StatsError::EmptyInput) => nmedian_spec(self@, eps as int) is Converged
                    && self@.len() == 1,
                Err(StatsError::DegenerateVector) => nmedian_spec(self@, eps as int)
                    == SolveOutcome::Degenerate || (nmedian_spec(self@, eps as int) is Converged
                    && self@.len() >= 2 && !all_distinct(self@)),
                Err(StatsError::NonConvergent) => nmedian_spec(self@, eps as int)
                    == SolveOutcome::Exhausted,
                Err(_) => false,
            },
    {
        let gm = match self.nmedian(eps) {
            Ok(g) => g,
            Err(e) => {
                return Err(e);
            },
        };
        let raw = match self.scalarecc() {
            Ok(v) => v,
            Err(e) => {
                return Err(e);
            },
        };
        let se = sort_by_flag(&raw, ascending);
        proof {
            assert forall|k: int| 0 <= k < ints(raw@).len() implies ints(raw@)[k]
                == member_eccs_spec(self@)[k] by {
                assert(ints(raw@)[k] == raw@[k] as int);
            }
            assert(ints(raw@) =~= member_eccs_spec(self@));
        }
        Ok((gm, se))
    }
}

} // verus!
