//! Distance-sum statistics of a point set: the per-member sums of
//! distances to all other members, the medoid (member of least sum) and
//! the outlier (member of greatest sum), and distance sums from arbitrary
//! query points.

use vstd::prelude::*;
use crate::arith::{lemma_sqrt_floor_bounds, lemma_sqrt_floor_upper};
use crate::vecops::{ints, bounded, vdist_spec, vdistsq_spec, vsub_spec, dist_raw,
    lemma_dot_prefix_nonneg, lemma_dot_prefix_bound, lemma_vdist_symmetric};
use crate::pointset::{PointSet, wf_points};
use crate::sorting::minmax_i64;
use crate::{StatsError, EST_LIMIT, DIM_LIMIT, COUNT_LIMIT, DIST_BOUND};

verus! {

/// Sum of the distances from `s[k]` to the points `s[0..m]`, skipping
/// `s[k]` itself.
pub open spec fn dsum_prefix(s: Seq<Seq<int>>, k: int, m: int) -> int
    decreases m,
{
    if m <= 0 {
        0
    } else if m - 1 == k {
        dsum_prefix(s, k, m - 1)
    } else {
        dsum_prefix(s, k, m - 1) + vdist_spec(s[k], s[m - 1])
    }
}

/// Sum of the distances from member `k` to every other member.
pub open spec fn dsum_spec(s: Seq<Seq<int>>, k: int) -> int {
    dsum_prefix(s, k, s.len() as int)
}

/// Sum of the distances from the points `s[0..m]` to the query point `q`.
pub open spec fn qsum_prefix(s: Seq<Seq<int>>, q: Seq<int>, m: int) -> int
    decreases m,
{
    if m <= 0 {
        0
    } else {
        qsum_prefix(s, q, m - 1) + vdist_spec(s[m - 1], q)
    }
}

/// Sum of the distances from every member to the query point `q`.
pub open spec fn distsum_spec(s: Seq<Seq<int>>, q: Seq<int>) -> int {
    qsum_prefix(s, q, s.len() as int)
}

/// Distance of two vectors within the iterate bound is at most `DIST_BOUND`.
pub proof fn lemma_vdist_bound_est(a: Seq<int>, b: Seq<int>)
    requires
        a.len() == b.len(),
        a.len() <= DIM_LIMIT,
        bounded(a, EST_LIMIT as int),
        bounded(b, EST_LIMIT as int),
    ensures
        0 <= vdist_spec(a, b) <= DIST_BOUND as int,
        0 <= vdistsq_spec(a, b),
{
    let dv = vsub_spec(a, b);
    assert forall|k: int| 0 <= k < dv.len() implies -(2 * EST_LIMIT as int) < #[trigger] dv[k] < 2
        * EST_LIMIT as int by {
        assert(dv[k] == a[k] - b[k]);
    }
    lemma_dot_prefix_nonneg(dv, dv.len() as int);
    lemma_dot_prefix_bound(dv, dv, 2 * EST_LIMIT as int, 2 * EST_LIMIT as int, dv.len() as int);
    assert((dv.len() as int) * (2 * EST_LIMIT as int) * (2 * EST_LIMIT as int)
        <= 0x400000000000000000000000int) by (nonlinear_arith)
        requires
            0 <= dv.len() as int <= DIM_LIMIT as int,
    ;
    lemma_sqrt_floor_upper(vdistsq_spec(a, b), DIST_BOUND as int + 1);
    lemma_sqrt_floor_bounds(vdistsq_spec(a, b));
}

/// A member of a well-formed set is within the iterate bound.
pub proof fn lemma_member_bounded(s: Seq<Seq<int>>, i: int)
    requires
        wf_points(s),
        0 <= i < s.len(),
    ensures
        bounded(s[i], EST_LIMIT as int),
        s[i].len() == s[0].len(),
{
    assert forall|k: int| 0 <= k < s[i].len() implies -(EST_LIMIT as int) < #[trigger] s[i][k] < (
    EST_LIMIT as int) by {
        assert(bounded(s[i], crate::COORD_LIMIT as int));
    }
}

/// The per-member distance-sum prefixes are nonnegative and bounded.
pub proof fn lemma_dsum_prefix_bound(s: Seq<Seq<int>>, k: int, m: int)
    requires
        wf_points(s),
        0 <= k < s.len(),
        0 <= m <= s.len(),
    ensures
        0 <= dsum_prefix(s, k, m) <= m * (DIST_BOUND as int),
    decreases m,
{
    if m > 0 {
        lemma_dsum_prefix_bound(s, k, m - 1);
        if m - 1 != k {
            lemma_member_bounded(s, k);
            lemma_member_bounded(s, m - 1);
            lemma_vdist_bound_est(s[k], s[m - 1]);
        }
        assert(m * (DIST_BOUND as int) == (m - 1) * (DIST_BOUND as int) + DIST_BOUND as int)
            by (nonlinear_arith);
    } else {
        assert(m * (DIST_BOUND as int) == 0) by (nonlinear_arith)
            requires
                m == 0,
        ;
    }
}

/// The query distance-sum prefixes are nonnegative and bounded.
pub proof fn lemma_qsum_prefix_bound(s: Seq<Seq<int>>, q: Seq<int>, m: int)
    requires
        wf_points(s),
        q.len() == s[0].len(),
        bounded(q, EST_LIMIT as int),
        0 <= m <= s.len(),
    ensures
        0 <= qsum_prefix(s, q, m) <= m * (DIST_BOUND as int),
    decreases m,
{
    if m > 0 {
        lemma_qsum_prefix_bound(s, q, m - 1);
        lemma_member_bounded(s, m - 1);
        lemma_vdist_bound_est(s[m - 1], q);
        assert(m * (DIST_BOUND as int) == (m - 1) * (DIST_BOUND as int) + DIST_BOUND as int)
            by (nonlinear_arith);
    } else {
        assert(m * (DIST_BOUND as int) == 0) by (nonlinear_arith)
            requires
                m == 0,
        ;
    }
}

impl PointSet {
    /// For each member point, its sum of distances to all other members,
    /// computed pairwise: each pair's distance is computed once and added
    /// to both accumulators.
    pub fn distsums(&self) -> (r: Vec<i64>)
        requires
            self.wf(),
        ensures
            r@.len() == self@.len(),
            forall|k: int| 0 <= k < r@.len() ==> #[trigger] (r@[k] as int) == dsum_spec(self@, k),
    {
        let ghost s = self@;
        let n = self.len();
        let mut r: Vec<i64> = Vec::new();
        let mut t: usize = 0;
        while t < n
            invariant
                0 <= t <= n,
                r@.len() == t,
                forall|k: int| 0 <= k < t ==> #[trigger] (r@[k] as int) == 0,
            decreases n - t,
        {
            r.push(0);
            t = t + 1;
        }
        proof {
            assert forall|k: int| 0 <= k < 1int && k < n implies r@[k] as int == dsum_prefix(
                s,
                k,
                1,
            ) by {
                assert(dsum_prefix(s, k, 1) == dsum_prefix(s, k, 0));
                assert(dsum_prefix(s, k, 0) == 0);
            }
        }
        let mut i: usize = 1;
        while i < n
            invariant
                1 <= i <= n || (n <= 1 && i == 1),
                n == s.len(),
                s == self@,
                self.wf(),
                r@.len() == n,
                forall|k: int| 0 <= k < i && k < n ==> #[trigger] (r@[k] as int) == dsum_prefix(
                    s,
                    k,
                    i as int,
                ),
                forall|k: int| i <= k < n ==> #[trigger] (r@[k] as int) == 0,
            decreases n - i,
        {
            let mut j: usize = 0;
            while j < i
                invariant
                    0 <= j <= i < n,
                    n == s.len(),
                    s == self@,
                    self.wf(),
                    r@.len() == n,
                    forall|k: int| 0 <= k < j ==> #[trigger] (r@[k] as int) == dsum_prefix(
                        s,
                        k,
                        i as int + 1,
                    ),
                    forall|k: int| j <= k < i ==> #[trigger] (r@[k] as int) == dsum_prefix(
                        s,
                        k,
                        i as int,
                    ),
                    r@[i as int] as int == dsum_prefix(s, i as int, j as int),
                    forall|k: int| i < k < n ==> #[trigger] (r@[k] as int) == 0,
                decreases i - j,
            {
                proof {
                    lemma_member_bounded(s, i as int);
                    lemma_member_bounded(s, j as int);
                    lemma_vdist_bound_est(s[i as int], s[j as int]);
                    lemma_vdist_symmetric(s[i as int], s[j as int]);
                    lemma_dsum_prefix_bound(s, i as int, j as int);
                    lemma_dsum_prefix_bound(s, j as int, i as int);
                    assert((j as int) * (DIST_BOUND as int) + DIST_BOUND as int <= (
                    COUNT_LIMIT as int) * (DIST_BOUND as int)) by (nonlinear_arith)
                        requires
                            0 <= j as int,
                            j as int + 1 <= COUNT_LIMIT as int,
                    ;
                    assert((i as int) * (DIST_BOUND as int) + DIST_BOUND as int <= (
                    COUNT_LIMIT as int) * (DIST_BOUND as int)) by (nonlinear_arith)
                        requires
                            0 <= i as int,
                            i as int + 1 <= COUNT_LIMIT as int,
                    ;
                }
                let d = dist_raw(self.point(i), self.point(j));
                let ci = r[i];
                let cj = r[j];
                r.set(i, ci + d);
                r.set(j, cj + d);
                j = j + 1;
            }
            proof {
                assert(r@[i as int] as int == dsum_prefix(s, i as int, i as int + 1));
            }
            i = i + 1;
        }
        proof {
            assert forall|k: int| 0 <= k < r@.len() implies r@[k] as int == dsum_spec(s, k) by {
                if n <= 1 {
                    assert(dsum_prefix(s, k, 1) == dsum_prefix(s, k, 0));
                    assert(dsum_prefix(s, k, 0) == 0);
                }
            }
        }
        r
    }

    /// Sum of the distances from the member `indx` to all other members.
    pub fn distsuminset(&self, indx: usize) -> (r: i64)
        requires
            self.wf(),
            indx < self@.len(),
        ensures
            r as int == dsum_spec(self@, indx as int),
    {
        let ghost s = self@;
        let n = self.len();
        let mut acc: i64 = 0;
        let mut i: usize = 0;
        while i < n
            invariant
                0 <= i <= n,
                n == s.len(),
                s == self@,
                self.wf(),
                indx < n,
                acc as int == dsum_prefix(s, indx as int, i as int),
            decreases n - i,
        {
            proof {
                lemma_dsum_prefix_bound(s, indx as int, i as int);
                lemma_dsum_prefix_bound(s, indx as int, i as int + 1);
                assert((i as int + 1) * (DIST_BOUND as int) <= (COUNT_LIMIT as int) * (
                DIST_BOUND as int)) by (nonlinear_arith)
                    requires
                        0 <= i as int,
                        i as int + 1 <= COUNT_LIMIT as int,
                ;
            }
            if i != indx {
                proof {
                    lemma_member_bounded(s, i as int);
                    lemma_member_bounded(s, indx as int);
                    lemma_vdist_symmetric(s[i as int], s[indx as int]);
                    lemma_vdist_bound_est(s[indx as int], s[i as int]);
                }
                let d = dist_raw(self.point(indx), self.point(i));
                acc = acc + d;
            }
            i = i + 1;
        }
        acc
    }

    /// Distances from the query point `q` to every member.
    pub fn dists(&self, q: &Vec<i64>) -> (r: Result<Vec<i64>, StatsError>)
        requires
            self.wf(),
            bounded(ints(q@), EST_LIMIT as int),
        ensures
            match r {
                Ok(v) => {
                    &&& q@.len() == self@[0].len()
                    &&& v@.len() == self@.len()
                    &&& forall|i: int| 0 <= i < v@.len() ==> #[trigger] (v@[i] as int)
                        == vdist_spec(self@[i], ints(q@))
                },
                Err(e) => q@.len() != self@[0].len() && e == StatsError::DimensionMismatch,
            },
    {
        if q.len() != self.dim() {
            return Err(StatsError::DimensionMismatch);
        }
        let ghost s = self@;
        let n = self.len();
        let mut r: Vec<i64> = Vec::new();
        let mut i: usize = 0;
        while i < n
            invariant
                0 <= i <= n,
                n == s.len(),
                s == self@,
                self.wf(),
                bounded(ints(q@), EST_LIMIT as int),
                q@.len() == s[0].len(),
                r@.len() == i,
                forall|k: int| 0 <= k < i ==> #[trigger] (r@[k] as int) == vdist_spec(
                    s[k],
                    ints(q@),
                ),
            decreases n - i,
        {
            proof {
                lemma_member_bounded(s, i as int);
            }
            let d = dist_raw(self.point(i), q);
            r.push(d);
            i = i + 1;
        }
        Ok(r)
    }

    /// Sum of the distances from the query point `q` to all members: the
    /// objective that the geometric median minimizes.
    pub fn distsum(&self, q: &Vec<i64>) -> (r: Result<i64, StatsError>)
        requires
            self.wf(),
            bounded(ints(q@), EST_LIMIT as int),
        ensures
            match r {
                Ok(t) => q@.len() == self@[0].len() && t as int == distsum_spec(self@, ints(q@)),
                Err(e) => q@.len() != self@[0].len() && e == StatsError::DimensionMismatch,
            },
    {
        if q.len() != self.dim() {
            return Err(StatsError::DimensionMismatch);
        }
        let ghost s = self@;
        let n = self.len();
        let mut acc: i64 = 0;
        let mut i: usize = 0;
        while i < n
            invariant
                0 <= i <= n,
                n == s.len(),
                s == self@,
                self.wf(),
                bounded(ints(q@), EST_LIMIT as int),
                q@.len() == s[0].len(),
                acc as int == qsum_prefix(s, ints(q@), i as int),
            decreases n - i,
        {
            proof {
                lemma_member_bounded(s, i as int);
                lemma_vdist_bound_est(s[i as int], ints(q@));
                lemma_qsum_prefix_bound(s, ints(q@), i as int);
                lemma_qsum_prefix_bound(s, ints(q@), i as int + 1);
                assert((i as int + 1) * (DIST_BOUND as int) <= (COUNT_LIMIT as int) * (
                DIST_BOUND as int)) by (nonlinear_arith)
                    requires
                        0 <= i as int,
                        i as int + 1 <= COUNT_LIMIT as int,
                ;
            }
            let d = dist_raw(self.point(i), q);
            acc = acc + d;
            i = i + 1;
        }
        Ok(acc)
    }

    /// Medoid and outlier: the member with the least sum of distances to
    /// all other members, and the member with the greatest, each with the
    /// first index attaining it.  Returns
    /// `(medoid_distance, medoid_index, outlier_distance, outlier_index)`.
    pub fn medoid(&self) -> (r: (i64, usize, i64, usize))
        requires
            self.wf(),
        ensures
            r.1 < self@.len(),
            r.3 < self@.len(),
            r.0 as int == dsum_spec(self@, r.1 as int),
            r.2 as int == dsum_spec(self@, r.3 as int),
            forall|i: int| 0 <= i < self@.len() ==> r.0 as int <= #[trigger] dsum_spec(self@, i)
                && dsum_spec(self@, i) <= r.2 as int,
            forall|i: int| 0 <= i < r.1 as int ==> #[trigger] dsum_spec(self@, i) > r.0 as int,
            forall|i: int| 0 <= i < r.3 as int ==> #[trigger] dsum_spec(self@, i) < r.2 as int,
    {
        let ds = self.distsums();
        let mm = minmax_i64(&ds);
        proof {
            assert forall|i: int| 0 <= i < self@.len() implies mm.0 as int <= #[trigger] dsum_spec(
                self@,
                i,
            ) && dsum_spec(self@, i) <= mm.2 as int by {
                assert(ds@[i] as int == dsum_spec(self@, i));
            }
            assert forall|i: int| 0 <= i < mm.1 as int implies #[trigger] dsum_spec(self@, i)
                > mm.0 as int by {
                assert(ds@[i] as int == dsum_spec(self@, i));
            }
            assert forall|i: int| 0 <= i < mm.3 as int implies #[trigger] dsum_spec(self@, i)
                < mm.2 as int by {
                assert(ds@[i] as int == dsum_spec(self@, i));
            }
        }
        mm
    }
}

/// Sum of the distances from the points `s[0..t]` to `s[i]`, with the
/// arguments of each distance in the opposite order to `dsum_prefix`.
pub open spec fn colsum(s: Seq<Seq<int>>, i: int, t: int) -> int
    decreases t,
{
    if t <= 0 {
        0
    } else {
        colsum(s, i, t - 1) + vdist_spec(s[t - 1], s[i])
    }
}

/// Sum of the first `t` members' distance-sum prefixes `dsum_prefix(s, k, m)`.
pub open spec fn row_part(s: Seq<Seq<int>>, m: int, t: int) -> int
    decreases t,
{
    if t <= 0 {
        0
    } else {
        row_part(s, m, t - 1) + dsum_prefix(s, t - 1, m)
    }
}

/// Sum of the distances of all unordered pairs among `s[0..m]`: each new
/// point contributes its distances to all earlier points once.
pub open spec fn pairsum(s: Seq<Seq<int>>, m: int) -> int
    decreases m,
{
    if m <= 0 {
        0
    } else {
        pairsum(s, m - 1) + dsum_prefix(s, m - 1, m - 1)
    }
}

/// Total of all members' distance sums.
pub open spec fn dsums_total(s: Seq<Seq<int>>) -> int {
    row_part(s, s.len() as int, s.len() as int)
}

proof fn lemma_colsum_eq_prefix(s: Seq<Seq<int>>, i: int, t: int)
    requires
        wf_points(s),
        0 <= t <= i < s.len(),
    ensures
        colsum(s, i, t) == dsum_prefix(s, i, t),
    decreases t,
{
    if t > 0 {
        lemma_colsum_eq_prefix(s, i, t - 1);
        lemma_member_bounded(s, i);
        lemma_member_bounded(s, t - 1);
        lemma_vdist_symmetric(s[i], s[t - 1]);
    }
}

proof fn lemma_row_step(s: Seq<Seq<int>>, m: int, t: int)
    requires
        wf_points(s),
        0 <= t <= m < s.len(),
    ensures
        row_part(s, m + 1, t) == row_part(s, m, t) + colsum(s, m, t),
    decreases t,
{
    if t > 0 {
        lemma_row_step(s, m, t - 1);
        assert(dsum_prefix(s, t - 1, m + 1) == dsum_prefix(s, t - 1, m) + vdist_spec(
            s[t - 1],
            s[m],
        ));
    }
}

/// The pairwise contribution of the ordered pair `(i, j)` equals that of
/// `(j, i)`: the distance matrix is symmetric.
pub proof fn lemma_pair_symmetric(s: Seq<Seq<int>>, i: int, j: int)
    requires
        wf_points(s),
        0 <= i < s.len(),
        0 <= j < s.len(),
    ensures
        vdist_spec(s[i], s[j]) == vdist_spec(s[j], s[i]),
{
    lemma_member_bounded(s, i);
    lemma_member_bounded(s, j);
    lemma_vdist_symmetric(s[i], s[j]);
}

/// The members' distance sums add up to exactly twice the sum of the
/// distances of all unordered pairs: every pair is counted once from each
/// of its endpoints.
pub proof fn lemma_distsums_double_pairs(s: Seq<Seq<int>>)
    requires
        wf_points(s),
    ensures
        dsums_total(s) == 2 * pairsum(s, s.len() as int),
{
    lemma_sum_symmetry(s, s.len() as int);
}

proof fn lemma_sum_symmetry(s: Seq<Seq<int>>, m: int)
    requires
        wf_points(s),
        0 <= m <= s.len(),
    ensures
        row_part(s, m, m) == 2 * pairsum(s, m),
    decreases m,
{
    if m > 0 {
        lemma_sum_symmetry(s, m - 1);
        lemma_row_step(s, m - 1, m - 1);
        lemma_colsum_eq_prefix(s, m - 1, m - 1);
        assert(row_part(s, m, m) == row_part(s, m, m - 1) + dsum_prefix(s, m - 1, m));
        assert(dsum_prefix(s, m - 1, m) == dsum_prefix(s, m - 1, m - 1));
    }
}

} // verus!
