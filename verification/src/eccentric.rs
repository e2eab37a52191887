//! Eccentricity vectors and the statistics built on them.  The
//! eccentricity vector of a point is the sum of unit vectors from it
//! toward every other point of the set; it is zero exactly at the
//! geometric median.

use vstd::prelude::*;
use crate::arith::{div_trunc, div_i128, lemma_div_trunc_bound};
use crate::vecops::{ints, bounded, zero_seq, vadd_spec, vsub_spec, vunit_spec, vmag_spec,
    vsub_raw, mag_raw, unit_scaled, lemma_coord_le_mag, lemma_vmag_nonneg, lemma_vunit_antisym,
    vneg_spec};
use crate::pointset::{PointSet, wf_points};
use crate::distance::lemma_member_bounded;
use crate::sorting::minmax_i64;
use crate::{StatsError, SCALE, EST_LIMIT, COUNT_LIMIT, OP_LIMIT};

verus! {

/// Eccentricity vector of the query point `q` over the first `m` points:
/// the sum of unit vectors from `q` toward each point; a point coincident
/// with `q` is skipped, not an error.
pub open spec fn eccq_prefix(s: Seq<Seq<int>>, q: Seq<int>, m: int) -> Seq<int>
    decreases m,
{
    if m <= 0 {
        zero_seq(q.len())
    } else {
        let prev = eccq_prefix(s, q, m - 1);
        let dv = vsub_spec(s[m - 1], q);
        if vmag_spec(dv) == 0 {
            prev
        } else {
            vadd_spec(prev, vunit_spec(dv))
        }
    }
}

/// Eccentricity vector of an external query point.
pub open spec fn eccvec_spec(s: Seq<Seq<int>>, q: Seq<int>) -> Seq<int> {
    eccq_prefix(s, q, s.len() as int)
}

/// Scalar eccentricity of a query point: the magnitude of its
/// eccentricity vector divided by the dimension `d`.
pub open spec fn eccq_scalar_spec(s: Seq<Seq<int>>, q: Seq<int>) -> int {
    div_trunc(vmag_spec(eccvec_spec(s, q)), s[0].len() as int)
}

/// Eccentricity vector of the member `i` over the first `m` points: the
/// sum of unit vectors toward each other member, with no skip — a
/// duplicate of a member makes the member field degenerate.
pub open spec fn eccm_prefix(s: Seq<Seq<int>>, i: int, m: int) -> Seq<int>
    decreases m,
{
    if m <= 0 {
        zero_seq(s[i].len())
    } else if m - 1 == i {
        eccm_prefix(s, i, m - 1)
    } else {
        vadd_spec(eccm_prefix(s, i, m - 1), vunit_spec(vsub_spec(s[m - 1], s[i])))
    }
}

/// Eccentricity vector of the member `i`.
pub open spec fn eccmember_spec(s: Seq<Seq<int>>, i: int) -> Seq<int> {
    eccm_prefix(s, i, s.len() as int)
}

/// Scalar eccentricity of the member `i`: the magnitude of its
/// eccentricity vector divided by `n - 1`, the number of other members.
pub open spec fn eccmember_scalar_spec(s: Seq<Seq<int>>, i: int) -> int {
    div_trunc(vmag_spec(eccmember_spec(s, i)), s.len() as int - 1)
}

/// No two members of `s` coincide.
pub open spec fn all_distinct(s: Seq<Seq<int>>) -> bool {
    forall|i: int, j: int|
        0 <= i < s.len() && 0 <= j < s.len() && i != j ==> vmag_spec(
            #[trigger] vsub_spec(s[j], s[i]),
        ) != 0
}


/// In a well-formed set every point has the dimension of a query vector
/// that matches the first point.
pub proof fn lemma_wf_dims(s: Seq<Seq<int>>, q: Seq<int>, m: int)
    requires
        wf_points(s),
        q.len() == s[0].len(),
        m <= s.len(),
    ensures
        forall|j: int| 0 <= j < m ==> (#[trigger] s[j]).len() == q.len(),
{
}

/// The coordinates of a unit vector stay within the fixed-point one.
pub proof fn lemma_vunit_bounded(a: Seq<int>)
    requires
        vmag_spec(a) != 0,
    ensures
        forall|k: int| 0 <= k < a.len() ==> -(SCALE as int) <= #[trigger] vunit_spec(a)[k]
            <= SCALE as int,
{
    lemma_vmag_nonneg(a);
    let m = vmag_spec(a);
    assert forall|k: int| 0 <= k < a.len() implies -(SCALE as int) <= #[trigger] vunit_spec(a)[k]
        <= SCALE as int by {
        lemma_coord_le_mag(a, k);
        assert(-((SCALE as int) * m) <= a[k] * (SCALE as int) <= (SCALE as int) * m)
            by (nonlinear_arith)
            requires
                -m <= a[k] <= m,
                SCALE as int > 0,
        ;
        vstd::arithmetic::mul::lemma_mul_is_commutative(SCALE as int, m);
        lemma_div_trunc_bound(a[k] * (SCALE as int), m, SCALE as int);
    }
}

/// Query eccentricity prefixes have the query's dimension and coordinates
/// within `m * SCALE`.
pub proof fn lemma_eccq_prefix_bound(s: Seq<Seq<int>>, q: Seq<int>, m: int)
    requires
        0 <= m,
        forall|j: int| 0 <= j < m ==> (#[trigger] s[j]).len() == q.len(),
    ensures
        eccq_prefix(s, q, m).len() == q.len(),
        forall|k: int| 0 <= k < q.len() ==> -(m * (SCALE as int)) <= #[trigger] eccq_prefix(
            s,
            q,
            m,
        )[k] <= m * (SCALE as int),
    decreases m,
{
    if m <= 0 {
        assert forall|k: int| 0 <= k < q.len() implies -(m * (SCALE as int)) <= #[trigger]
            eccq_prefix(s, q, m)[k] <= m * (SCALE as int) by {
            assert(m * (SCALE as int) == 0) by (nonlinear_arith)
                requires
                    m == 0,
            ;
        }
    } else {
        lemma_eccq_prefix_bound(s, q, m - 1);
        let dv = vsub_spec(s[m - 1], q);
        if vmag_spec(dv) != 0 {
            lemma_vunit_bounded(dv);
        }
        assert forall|k: int| 0 <= k < q.len() implies -(m * (SCALE as int)) <= #[trigger]
            eccq_prefix(s, q, m)[k] <= m * (SCALE as int) by {
            assert(m * (SCALE as int) == (m - 1) * (SCALE as int) + SCALE as int)
                by (nonlinear_arith);
        }
    }
}

/// Member eccentricity prefixes over non-coincident pairs have the
/// member's dimension and coordinates within `m * SCALE`.
pub proof fn lemma_eccm_prefix_bound(s: Seq<Seq<int>>, i: int, m: int)
    requires
        0 <= m,
        forall|j: int| 0 <= j < m ==> (#[trigger] s[j]).len() == s[i].len(),
        forall|j: int| 0 <= j < m && j != i ==> vmag_spec(#[trigger] vsub_spec(s[j], s[i])) != 0,
    ensures
        eccm_prefix(s, i, m).len() == s[i].len(),
        forall|k: int| 0 <= k < s[i].len() ==> -(m * (SCALE as int)) <= #[trigger] eccm_prefix(
            s,
            i,
            m,
        )[k] <= m * (SCALE as int),
    decreases m,
{
    if m <= 0 {
        assert forall|k: int| 0 <= k < s[i].len() implies -(m * (SCALE as int)) <= #[trigger]
            eccm_prefix(s, i, m)[k] <= m * (SCALE as int) by {
            assert(m * (SCALE as int) == 0) by (nonlinear_arith)
                requires
                    m == 0,
            ;
        }
    } else {
        lemma_eccm_prefix_bound(s, i, m - 1);
        let dv = vsub_spec(s[m - 1], s[i]);
        if m - 1 != i {
            lemma_vunit_bounded(dv);
        }
        assert forall|k: int| 0 <= k < s[i].len() implies -(m * (SCALE as int)) <= #[trigger]
            eccm_prefix(s, i, m)[k] <= m * (SCALE as int) by {
            assert(m * (SCALE as int) == (m - 1) * (SCALE as int) + SCALE as int)
                by (nonlinear_arith);
        }
    }
}

impl PointSet {
    /// Eccentricity vector of the query point `q`: the sum of unit
    /// vectors from `q` toward every member.  Members coincident with `q`
    /// are skipped, not an error.
    pub fn eccnonmember(&self, q: &Vec<i64>) -> (r: Result<Vec<i64>, StatsError>)
        requires
            self.wf(),
            bounded(ints(q@), EST_LIMIT as int),
        ensures
            match r {
                Ok(v) => {
                    &&& q@.len() == self@[0].len()
                    &&& ints(v@) == eccvec_spec(self@, ints(q@))
                    &&& v@.len() == self@[0].len()
                    &&& forall|k: int|
                        0 <= k < v@.len() ==> -((self@.len() as int) * (SCALE as int))
                            <= #[trigger] (v@[k] as int) <= (self@.len() as int) * (SCALE as int)
                },
                Err(e) => q@.len() != self@[0].len() && e == StatsError::DimensionMismatch,
            },
    {
        if q.len() != self.dim() {
            return Err(StatsError::DimensionMismatch);
        }
        let ghost s = self@;
        let ghost qs = ints(q@);
        let n = self.len();
        let d = self.dim();
        let mut acc: Vec<i64> = Vec::new();
        let mut t: usize = 0;
        while t < d
            invariant
                0 <= t <= d,
                acc@.len() == t,
                forall|k: int| 0 <= k < t ==> #[trigger] (acc@[k] as int) == 0,
            decreases d - t,
        {
            acc.push(0);
            t = t + 1;
        }
        proof {
            assert forall|k: int| 0 <= k < d implies #[trigger] (acc@[k] as int) == eccq_prefix(
                s,
                qs,
                0,
            )[k] by {
                assert(eccq_prefix(s, qs, 0)[k] == zero_seq(qs.len())[k]);
            }
        }
        let mut i: usize = 0;
        while i < n
            invariant
                0 <= i <= n,
                n == s.len(),
                d == s[0].len(),
                s == self@,
                self.wf(),
                qs == ints(q@),
                qs.len() == d,
                bounded(qs, EST_LIMIT as int),
                acc@.len() == d,
                forall|k: int| 0 <= k < d ==> #[trigger] (acc@[k] as int) == eccq_prefix(
                    s,
                    qs,
                    i as int,
                )[k],
            decreases n - i,
        {
            proof {
                lemma_member_bounded(s, i as int);
            }
            let dv = vsub_raw(self.point(i), q);
            let m = mag_raw(&dv);
            if m != 0 {
                let u = unit_scaled(&dv, m);
                let ghost prev = eccq_prefix(s, qs, i as int);
                proof {
                    lemma_wf_dims(s, qs, i as int + 1);
                    lemma_eccq_prefix_bound(s, qs, i as int);
                    lemma_eccq_prefix_bound(s, qs, i as int + 1);
                    assert((i as int) * (SCALE as int) <= (COUNT_LIMIT as int) * (SCALE as int))
                        by (nonlinear_arith)
                        requires
                            0 <= i as int <= COUNT_LIMIT as int,
                    ;
                    assert((i as int + 1) * (SCALE as int) <= (COUNT_LIMIT as int) * (
                    SCALE as int)) by (nonlinear_arith)
                        requires
                            0 <= i as int,
                            i as int + 1 <= COUNT_LIMIT as int,
                    ;
                }
                let mut k: usize = 0;
                while k < d
                    invariant
                        0 <= k <= d,
                        0 <= i < n,
                        n == s.len(),
                        d == s[0].len(),
                        s == self@,
                        self.wf(),
                        qs.len() == d,
                        acc@.len() == d,
                        u@.len() == d,
                        prev == eccq_prefix(s, qs, i as int),
                        prev.len() == d,
                        vmag_spec(vsub_spec(s[i as int], qs)) != 0,
                        ints(u@) == vunit_spec(vsub_spec(s[i as int], qs)),
                        forall|j: int| 0 <= j < d ==> -(SCALE as int) <= #[trigger] (u@[j] as int)
                            <= SCALE as int,
                        forall|j: int| 0 <= j < d ==> -((COUNT_LIMIT as int) * (SCALE as int))
                            <= #[trigger] prev[j] <= (COUNT_LIMIT as int) * (SCALE as int),
                        forall|j: int| k <= j < d ==> #[trigger] (acc@[j] as int) == prev[j],
                        forall|j: int| 0 <= j < k ==> #[trigger] (acc@[j] as int) == eccq_prefix(
                            s,
                            qs,
                            i as int + 1,
                        )[j],
                    decreases d - k,
                {
                    proof {
                        assert(eccq_prefix(s, qs, i as int + 1)[k as int] == prev[k as int] + ints(
                            u@,
                        )[k as int]);
                        assert(ints(u@)[k as int] == u@[k as int] as int);
                    }
                    let cur = acc[k];
                    let uk = u[k];
                    acc.set(k, cur + uk);
                    k = k + 1;
                }
            }
            i = i + 1;
        }
        proof {
            lemma_wf_dims(s, qs, n as int);
            lemma_eccq_prefix_bound(s, qs, n as int);
            assert forall|k: int| 0 <= k < acc@.len() implies ints(acc@)[k] == eccvec_spec(
                s,
                qs,
            )[k] by {
                assert(ints(acc@)[k] == acc@[k] as int);
            }
            assert(ints(acc@) =~= eccvec_spec(s, qs));
        }
        Ok(acc)
    }

    /// Scalar eccentricity and eccentricity vector of the query point
    /// `q`: the magnitude of the vector divided by the dimension, and the
    /// vector itself.
    pub fn veccentr(&self, q: &Vec<i64>) -> (r: Result<(i64, Vec<i64>), StatsError>)
        requires
            self.wf(),
            bounded(ints(q@), EST_LIMIT as int),
        ensures
            match r {
                Ok((e, v)) => {
                    &&& q@.len() == self@[0].len()
                    &&& ints(v@) == eccvec_spec(self@, ints(q@))
                    &&& e as int == eccq_scalar_spec(self@, ints(q@))
                    &&& e >= 0
                },
                Err(e) => q@.len() != self@[0].len() && e == StatsError::DimensionMismatch,
            },
    {
        let ghost s = self@;
        let ghost qs = ints(q@);
        let v = match self.eccnonmember(q) {
            Ok(v) => v,
            Err(e) => {
                return Err(e);
            },
        };
        proof {
            assert forall|k: int| 0 <= k < ints(v@).len() implies -(OP_LIMIT as int) < #[trigger]
                ints(v@)[k] < OP_LIMIT as int by {
                assert(ints(v@)[k] == v@[k] as int);
                assert((COUNT_LIMIT as int) * (SCALE as int) < OP_LIMIT as int)
                    by (nonlinear_arith);
                assert(-((s.len() as int) * (SCALE as int)) <= v@[k] as int <= (s.len() as int) * (
                SCALE as int));
                assert((s.len() as int) * (SCALE as int) <= (COUNT_LIMIT as int) * (SCALE as int))
                    by (nonlinear_arith)
                    requires
                        0 <= s.len() as int <= COUNT_LIMIT as int,
                ;
            }
        }
        let m = mag_raw(&v);
        let d = self.dim();
        proof {
            assert(m as int <= (m as int) * (d as int)) by (nonlinear_arith)
                requires
                    d as int >= 1,
                    m as int >= 0,
            ;
            assert((m as int) * (d as int) >= 0) by (nonlinear_arith)
                requires
                    d as int >= 1,
                    m as int >= 0,
            ;
            vstd::arithmetic::mul::lemma_mul_is_commutative(m as int, d as int);
            lemma_div_trunc_bound(m as int, d as int, m as int);
            vstd::arithmetic::div_mod::lemma_div_pos_is_pos(m as int, d as int);
        }
        let e = div_i128(m as i128, d as i128);
        Ok((e as i64, v))
    }

    /// Scalar eccentricity of the query point `q` alone.
    pub fn ecc(&self, q: &Vec<i64>) -> (r: Result<i64, StatsError>)
        requires
            self.wf(),
            bounded(ints(q@), EST_LIMIT as int),
        ensures
            match r {
                Ok(e) => q@.len() == self@[0].len() && e as int == eccq_scalar_spec(
                    self@,
                    ints(q@),
                ) && e >= 0,
                Err(e) => q@.len() != self@[0].len() && e == StatsError::DimensionMismatch,
            },
    {
        let (e, _) = match self.veccentr(q) {
            Ok(ev) => ev,
            Err(e) => {
                return Err(e);
            },
        };
        Ok(e)
    }
}


/// A zero vector of dimension `d`.
pub(crate) fn zeros_exec(d: usize) -> (r: Vec<i64>)
    ensures
        r@.len() == d,
        forall|k: int| 0 <= k < d ==> #[trigger] (r@[k] as int) == 0,
{
    let mut r: Vec<i64> = Vec::new();
    let mut t: usize = 0;
    while t < d
        invariant
            0 <= t <= d,
            r@.len() == t,
            forall|k: int| 0 <= k < t ==> #[trigger] (r@[k] as int) == 0,
        decreases d - t,
    {
        r.push(0);
        t = t + 1;
    }
    r
}

/// A fresh row: `row + u`, coordinatewise.
fn row_add(row: &Vec<i64>, u: &Vec<i64>) -> (r: Vec<i64>)
    requires
        row@.len() == u@.len(),
        forall|k: int| 0 <= k < row@.len() ==> -((COUNT_LIMIT as int) * (SCALE as int))
            <= #[trigger] (row@[k] as int) <= (COUNT_LIMIT as int) * (SCALE as int),
        forall|k: int| 0 <= k < u@.len() ==> -(SCALE as int) <= #[trigger] (u@[k] as int)
            <= SCALE as int,
    ensures
        r@.len() == row@.len(),
        forall|k: int| 0 <= k < r@.len() ==> #[trigger] (r@[k] as int) == row@[k] as int
            + u@[k] as int,
{
    let mut r: Vec<i64> = Vec::new();
    let mut k: usize = 0;
    while k < row.len()
        invariant
            0 <= k <= row@.len(),
            row@.len() == u@.len(),
            forall|t: int| 0 <= t < row@.len() ==> -((COUNT_LIMIT as int) * (SCALE as int))
                <= #[trigger] (row@[t] as int) <= (COUNT_LIMIT as int) * (SCALE as int),
            forall|t: int| 0 <= t < u@.len() ==> -(SCALE as int) <= #[trigger] (u@[t] as int)
                <= SCALE as int,
            r@.len() == k,
            forall|t: int| 0 <= t < k ==> #[trigger] (r@[t] as int) == row@[t] as int
                + u@[t] as int,
        decreases row@.len() - k,
    {
        r.push(row[k] + u[k]);
        k = k + 1;
    }
    r
}

/// A fresh row: `row - u`, coordinatewise.
fn row_sub(row: &Vec<i64>, u: &Vec<i64>) -> (r: Vec<i64>)
    requires
        row@.len() == u@.len(),
        forall|k: int| 0 <= k < row@.len() ==> -((COUNT_LIMIT as int) * (SCALE as int))
            <= #[trigger] (row@[k] as int) <= (COUNT_LIMIT as int) * (SCALE as int),
        forall|k: int| 0 <= k < u@.len() ==> -(SCALE as int) <= #[trigger] (u@[k] as int)
            <= SCALE as int,
    ensures
        r@.len() == row@.len(),
        forall|k: int| 0 <= k < r@.len() ==> #[trigger] (r@[k] as int) == row@[k] as int
            - u@[k] as int,
{
    let mut r: Vec<i64> = Vec::new();
    let mut k: usize = 0;
    while k < row.len()
        invariant
            0 <= k <= row@.len(),
            row@.len() == u@.len(),
            forall|t: int| 0 <= t < row@.len() ==> -((COUNT_LIMIT as int) * (SCALE as int))
                <= #[trigger] (row@[t] as int) <= (COUNT_LIMIT as int) * (SCALE as int),
            forall|t: int| 0 <= t < u@.len() ==> -(SCALE as int) <= #[trigger] (u@[t] as int)
                <= SCALE as int,
            r@.len() == k,
            forall|t: int| 0 <= t < k ==> #[trigger] (r@[t] as int) == row@[t] as int
                - u@[t] as int,
        decreases row@.len() - k,
    {
        r.push(row[k] - u[k]);
        k = k + 1;
    }
    r
}

/// In a well-formed set every point has the dimension of the member `i`.
pub proof fn lemma_wf_dims_member(s: Seq<Seq<int>>, i: int, m: int)
    requires
        wf_points(s),
        0 <= i < s.len(),
        m <= s.len(),
    ensures
        forall|j: int| 0 <= j < m ==> (#[trigger] s[j]).len() == s[i].len(),
{
}

impl PointSet {
    /// Scalar eccentricity of the member `indx`: the magnitude of its
    /// eccentricity vector divided by `n - 1`.  Fails with `EmptyInput`
    /// when the set has no other member, and with `DegenerateVector` when
    /// another member coincides with it.
    pub fn eccentrinset(&self, indx: usize) -> (r: Result<i64, StatsError>)
        requires
            self.wf(),
            indx < self@.len(),
        ensures
            match r {
                Ok(e) => {
                    &&& self@.len() >= 2
                    &&& forall|j: int|
                        0 <= j < self@.len() && j != indx as int ==> vmag_spec(
                            #[trigger] vsub_spec(self@[j], self@[indx as int]),
                        ) != 0
                    &&& e as int == eccmember_scalar_spec(self@, indx as int)
                    &&& e >= 0
                },
                Err(StatsError::EmptyInput) => self@.len() == 1,
                Err(StatsError::DegenerateVector) => self@.len() >= 2 && exists|j: int|
                    0 <= j < self@.len() && j != indx as int && vmag_spec(
                        #[trigger] vsub_spec(self@[j], self@[indx as int]),
                    ) == 0,
                Err(_) => false,
            },
    {
        let ghost s = self@;
        let n = self.len();
        let d = self.dim();
        if n == 1 {
            return Err(StatsError::EmptyInput);
        }
        let mut acc = zeros_exec(d);
        proof {
            assert forall|k: int| 0 <= k < d implies #[trigger] (acc@[k] as int) == eccm_prefix(
                s,
                indx as int,
                0,
            )[k] by {
                assert(eccm_prefix(s, indx as int, 0)[k] == zero_seq(s[indx as int].len())[k]);
            }
        }
        let mut j: usize = 0;
        while j < n
            invariant
                0 <= j <= n,
                indx < n,
                n == s.len(),
                n >= 2,
                d == s[0].len(),
                s == self@,
                self.wf(),
                acc@.len() == d,
                forall|t: int|
                    0 <= t < j && t != indx as int ==> vmag_spec(
                        #[trigger] vsub_spec(s[t], s[indx as int]),
                    ) != 0,
                forall|k: int| 0 <= k < d ==> #[trigger] (acc@[k] as int) == eccm_prefix(
                    s,
                    indx as int,
                    j as int,
                )[k],
            decreases n - j,
        {
            if j != indx {
                proof {
                    lemma_member_bounded(s, j as int);
                    lemma_member_bounded(s, indx as int);
                }
                let dv = vsub_raw(self.point(j), self.point(indx));
                let m = mag_raw(&dv);
                if m == 0 {
                    proof {
                        assert(0 <= j < s.len() && j as int != indx as int && vmag_spec(
                            vsub_spec(s[j as int], s[indx as int]),
                        ) == 0);
                    }
                    return Err(StatsError::DegenerateVector);
                }
                let u = unit_scaled(&dv, m);
                proof {
                    lemma_wf_dims_member(s, indx as int, j as int);
                    lemma_wf_dims_member(s, indx as int, j as int + 1);
                    lemma_eccm_prefix_bound(s, indx as int, j as int);
                    assert((j as int) * (SCALE as int) <= (COUNT_LIMIT as int) * (SCALE as int))
                        by (nonlinear_arith)
                        requires
                            0 <= j as int <= COUNT_LIMIT as int,
                    ;
                }
                let newacc = row_add(&acc, &u);
                acc = newacc;
                proof {
                    assert forall|k: int| 0 <= k < d implies #[trigger] (acc@[k] as int)
                        == eccm_prefix(s, indx as int, j as int + 1)[k] by {
                        assert(eccm_prefix(s, indx as int, j as int + 1) == vadd_spec(
                            eccm_prefix(s, indx as int, j as int),
                            vunit_spec(vsub_spec(s[j as int], s[indx as int])),
                        ));
                        assert(ints(u@)[k] == u@[k] as int);
                    }
                }
            }
            j = j + 1;
        }
        proof {
            lemma_wf_dims_member(s, indx as int, n as int);
            lemma_eccm_prefix_bound(s, indx as int, n as int);
            assert forall|k: int| 0 <= k < ints(acc@).len() implies -(OP_LIMIT as int) < #[trigger]
                ints(acc@)[k] < OP_LIMIT as int by {
                assert(ints(acc@)[k] == acc@[k] as int);
                assert((n as int) * (SCALE as int) < OP_LIMIT as int) by (nonlinear_arith)
                    requires
                        0 <= n as int <= COUNT_LIMIT as int,
                ;
            }
            assert forall|k: int| 0 <= k < d implies ints(acc@)[k] == eccmember_spec(
                s,
                indx as int,
            )[k] by {
                assert(ints(acc@)[k] == acc@[k] as int);
            }
            assert(ints(acc@) =~= eccmember_spec(s, indx as int));
        }
        let m = mag_raw(&acc);
        let nm1 = n - 1;
        proof {
            assert(m as int <= (m as int) * (nm1 as int)) by (nonlinear_arith)
                requires
                    nm1 as int >= 1,
                    m as int >= 0,
            ;
            assert((m as int) * (nm1 as int) >= 0) by (nonlinear_arith)
                requires
                    nm1 as int >= 1,
                    m as int >= 0,
            ;
            vstd::arithmetic::mul::lemma_mul_is_commutative(m as int, nm1 as int);
            lemma_div_trunc_bound(m as int, nm1 as int, m as int);
            vstd::arithmetic::div_mod::lemma_div_pos_is_pos(m as int, nm1 as int);
        }
        let e = div_i128(m as i128, nm1 as i128);
        Ok(e as i64)
    }
}


impl PointSet {
    /// The eccentricity vector field: for every member, the sum of unit
    /// vectors toward all other members.  Each pair is computed once: the
    /// unit vector of a pair is added to one accumulator and subtracted
    /// from the other.  Fails with `DegenerateVector` if two members
    /// coincide, for then a pair has no direction.
    pub fn eccentricities(&self) -> (r: Result<Vec<Vec<i64>>, StatsError>)
        requires
            self.wf(),
        ensures
            match r {
                Ok(v) => {
                    &&& all_distinct(self@)
                    &&& v@.len() == self@.len()
                    &&& forall|i: int| 0 <= i < v@.len() ==> ints((#[trigger] v@[i])@)
                        == eccmember_spec(self@, i)
                },
                Err(e) => e == StatsError::DegenerateVector && !all_distinct(self@),
            },
    {
        let ghost s = self@;
        let n = self.len();
        let d = self.dim();
        let mut r: Vec<Vec<i64>> = Vec::new();
        let mut t: usize = 0;
        while t < n
            invariant
                0 <= t <= n,
                n == s.len(),
                d == s[0].len(),
                s == self@,
                self.wf(),
                r@.len() == t,
                forall|a: int| 0 <= a < t ==> (#[trigger] r@[a])@.len() == d,
                forall|a: int, k: int| 0 <= a < t && 0 <= k < d ==> #[trigger] ((r@[a])@[k] as int) == 0,
            decreases n - t,
        {
            let z = zeros_exec(d);
            r.push(z);
            t = t + 1;
        }
        proof {
            assert forall|a: int, k: int| 0 <= a < n && 0 <= k < d implies #[trigger] ((r@[a])@[k] as int) == eccm_prefix(s, a, 0)[k] by {
                assert(eccm_prefix(s, a, 0)[k] == zero_seq(s[a].len())[k]);
            }
            assert forall|k: int| 0 <= k < d implies #[trigger] ((r@[0])@[k] as int)
                == eccm_prefix(s, 0, 1)[k] by {
                assert(eccm_prefix(s, 0, 1) == eccm_prefix(s, 0, 0));
                assert(eccm_prefix(s, 0, 0)[k] == zero_seq(s[0].len())[k]);
            }
        }
        let mut i: usize = 1;
        while i < n
            invariant
                1 <= i <= n || (n <= 1 && i == 1),
                n == s.len(),
                d == s[0].len(),
                s == self@,
                self.wf(),
                r@.len() == n,
                forall|a: int| 0 <= a < n ==> (#[trigger] r@[a])@.len() == d,
                forall|a: int, b: int|
                    0 <= a < b < i ==> vmag_spec(#[trigger] vsub_spec(s[a], s[b])) != 0,
                forall|a: int, k: int| 0 <= a < i && a < n && 0 <= k < d ==> #[trigger] ((r@[a])@[k] as int) == eccm_prefix(s, a, i as int)[k],
                forall|a: int, k: int| i <= a < n && 0 <= k < d ==> #[trigger] ((r@[a])@[k] as int) == eccm_prefix(s, a, 0)[k],
            decreases n - i,
        {
            let mut j: usize = 0;
            while j < i
                invariant
                    0 <= j <= i < n,
                    n == s.len(),
                    d == s[0].len(),
                    s == self@,
                    self.wf(),
                    r@.len() == n,
                    forall|a: int| 0 <= a < n ==> (#[trigger] r@[a])@.len() == d,
                    forall|a: int, b: int|
                        0 <= a < b < i ==> vmag_spec(#[trigger] vsub_spec(s[a], s[b])) != 0,
                    forall|a: int|
                        0 <= a < j ==> vmag_spec(#[trigger] vsub_spec(s[a], s[i as int])) != 0,
                    forall|a: int, k: int| 0 <= a < j && 0 <= k < d ==> #[trigger] ((r@[a])@[k] as int) == eccm_prefix(s, a, i as int + 1)[k],
                    forall|a: int, k: int| j <= a < i && 0 <= k < d ==> #[trigger] ((r@[a])@[k] as int) == eccm_prefix(s, a, i as int)[k],
                    forall|k: int| 0 <= k < d ==> #[trigger] ((r@[i as int])@[k] as int)
                        == eccm_prefix(s, i as int, j as int)[k],
                    forall|a: int, k: int| i < a < n && 0 <= k < d ==> #[trigger] ((r@[a])@[k] as int) == eccm_prefix(s, a, 0)[k],
                decreases i - j,
            {
                proof {
                    lemma_member_bounded(s, i as int);
                    lemma_member_bounded(s, j as int);
                }
                let dv = vsub_raw(self.point(j), self.point(i));
                let m = mag_raw(&dv);
                if m == 0 {
                    proof {
                        assert(vmag_spec(vsub_spec(s[j as int], s[i as int])) == 0);
                        assert(!all_distinct(s));
                    }
                    return Err(StatsError::DegenerateVector);
                }
                let u = unit_scaled(&dv, m);
                proof {
                    // bounds for the two rows being updated
                    lemma_wf_dims_member(s, i as int, j as int);
                    lemma_eccm_prefix_bound(s, i as int, j as int);
                    lemma_wf_dims_member(s, j as int, i as int);
                    assert forall|v2: int|
                        0 <= v2 < i as int && v2 != j as int implies vmag_spec(
                        #[trigger] vsub_spec(s[v2], s[j as int]),
                    ) != 0 by {
                        if v2 < j as int {
                            assert(vmag_spec(vsub_spec(s[v2], s[j as int])) != 0);
                        } else {
                            assert(vmag_spec(vsub_spec(s[j as int], s[v2])) != 0);
                            crate::vecops::lemma_vdist_symmetric(s[j as int], s[v2]);
                        }
                    }
                    lemma_eccm_prefix_bound(s, j as int, i as int);
                    assert((j as int) * (SCALE as int) <= (COUNT_LIMIT as int) * (SCALE as int))
                        by (nonlinear_arith)
                        requires
                            0 <= j as int <= COUNT_LIMIT as int,
                    ;
                    assert((i as int) * (SCALE as int) <= (COUNT_LIMIT as int) * (SCALE as int))
                        by (nonlinear_arith)
                        requires
                            0 <= i as int <= COUNT_LIMIT as int,
                    ;
                    // the unit vector of the opposite pair is the negation
                    crate::vecops::lemma_vdist_symmetric(s[i as int], s[j as int]);
                    lemma_vmag_nonneg(vsub_spec(s[i as int], s[j as int]));
                    lemma_vunit_antisym(s[i as int], s[j as int]);
                }
                let newi = row_add(&r[i], &u);
                let newj = row_sub(&r[j], &u);
                r.set(i, newi);
                r.set(j, newj);
                proof {
                    assert forall|k: int| 0 <= k < d implies #[trigger] ((r@[i as int])@[k] as int)
                        == eccm_prefix(s, i as int, j as int + 1)[k] by {
                        assert(eccm_prefix(s, i as int, j as int + 1) == vadd_spec(
                            eccm_prefix(s, i as int, j as int),
                            vunit_spec(vsub_spec(s[j as int], s[i as int])),
                        ));
                        assert(ints(u@)[k] == u@[k] as int);
                    }
                    assert forall|k: int| 0 <= k < d implies #[trigger] ((r@[j as int])@[k] as int)
                        == eccm_prefix(s, j as int, i as int + 1)[k] by {
                        assert(eccm_prefix(s, j as int, i as int + 1) == vadd_spec(
                            eccm_prefix(s, j as int, i as int),
                            vunit_spec(vsub_spec(s[i as int], s[j as int])),
                        ));
                        assert(vunit_spec(vsub_spec(s[i as int], s[j as int])) == vneg_spec(
                            vunit_spec(vsub_spec(s[j as int], s[i as int])),
                        ));
                        assert(vneg_spec(vunit_spec(vsub_spec(s[j as int], s[i as int])))[k]
                            == -vunit_spec(vsub_spec(s[j as int], s[i as int]))[k]);
                        assert(ints(u@)[k] == u@[k] as int);
                    }
                }
                j = j + 1;
            }
            proof {
                assert forall|k: int| 0 <= k < d implies #[trigger] ((r@[i as int])@[k] as int)
                    == eccm_prefix(s, i as int, i as int + 1)[k] by {
                    assert(eccm_prefix(s, i as int, i as int + 1) == eccm_prefix(
                        s,
                        i as int,
                        i as int,
                    ));
                }
            }
            i = i + 1;
        }
        proof {
            assert forall|a: int, b: int|
                0 <= a < s.len() && 0 <= b < s.len() && a != b implies vmag_spec(
                #[trigger] vsub_spec(s[b], s[a]),
            ) != 0 by {
                if n <= 1 {
                } else if b < a {
                    assert(vmag_spec(vsub_spec(s[b], s[a])) != 0);
                } else {
                    assert(vmag_spec(vsub_spec(s[a], s[b])) != 0);
                    crate::vecops::lemma_vdist_symmetric(s[a], s[b]);
                }
            }
            assert forall|a: int| 0 <= a < r@.len() implies ints((#[trigger] r@[a])@)
                == eccmember_spec(s, a) by {
                assert forall|k: int| 0 <= k < d implies ints((r@[a])@)[k] == eccmember_spec(
                    s,
                    a,
                )[k] by {
                    assert(ints((r@[a])@)[k] == (r@[a])@[k] as int);
                    if n <= 1 {
                        assert(eccm_prefix(s, a, 1) == eccm_prefix(s, a, 0));
                        assert(eccm_prefix(s, a, 0)[k] == zero_seq(s[a].len())[k]);
                    }
                }
                lemma_wf_dims_member(s, a, n as int);
                assert forall|v2: int|
                    0 <= v2 < n as int && v2 != a implies vmag_spec(
                    #[trigger] vsub_spec(s[v2], s[a]),
                ) != 0 by {
                }
                lemma_eccm_prefix_bound(s, a, n as int);
                assert(ints((r@[a])@) =~= eccmember_spec(s, a));
            }
        }
        Ok(r)
    }

    /// Magnitudes of all the member points.
    pub fn mags(&self) -> (r: Vec<i64>)
        requires
            self.wf(),
        ensures
            r@.len() == self@.len(),
            forall|i: int| 0 <= i < r@.len() ==> #[trigger] (r@[i] as int) == vmag_spec(self@[i]),
    {
        let ghost s = self@;
        let n = self.len();
        let mut r: Vec<i64> = Vec::new();
        let mut i: usize = 0;
        while i < n
            invariant
                0 <= i <= n,
                n == s.len(),
                s == self@,
                self.wf(),
                r@.len() == i,
                forall|t: int| 0 <= t < i ==> #[trigger] (r@[t] as int) == vmag_spec(s[t]),
            decreases n - i,
        {
            proof {
                lemma_member_bounded(s, i as int);
            }
            let m = mag_raw(self.point(i));
            r.push(m);
            i = i + 1;
        }
        r
    }

    /// Scalar eccentricities of all members: the magnitude of each
    /// member's eccentricity vector divided by `n - 1`.  Fails with
    /// `EmptyInput` on a single-point set and with `DegenerateVector`
    /// when two members coincide.
    pub fn scalarecc(&self) -> (r: Result<Vec<i64>, StatsError>)
        requires
            self.wf(),
        ensures
            match r {
                Ok(v) => {
                    &&& self@.len() >= 2
                    &&& all_distinct(self@)
                    &&& v@.len() == self@.len()
                    &&& forall|i: int| 0 <= i < v@.len() ==> #[trigger] (v@[i] as int)
                        == eccmember_scalar_spec(self@, i) && v@[i] >= 0
                },
                Err(StatsError::EmptyInput) => self@.len() == 1,
                Err(StatsError::DegenerateVector) => self@.len() >= 2 && !all_distinct(self@),
                Err(_) => false,
            },
    {
        let ghost s = self@;
        let n = self.len();
        if n == 1 {
            return Err(StatsError::EmptyInput);
        }
        let field = match self.eccentricities() {
            Ok(f) => f,
            Err(e) => {
                return Err(e);
            },
        };
        let nm1 = n - 1;
        let mut r: Vec<i64> = Vec::new();
        let mut i: usize = 0;
        while i < n
            invariant
                0 <= i <= n,
                n == s.len(),
                n >= 2,
                s == self@,
                self.wf(),
                all_distinct(s),
                field@.len() == n,
                forall|a: int| 0 <= a < n ==> ints((#[trigger] field@[a])@) == eccmember_spec(s, a),
                nm1 == n - 1,
                r@.len() == i,
                forall|t: int| 0 <= t < i ==> #[trigger] (r@[t] as int) == eccmember_scalar_spec(
                    s,
                    t,
                ) && r@[t] >= 0,
            decreases n - i,
        {
            proof {
                lemma_wf_dims_member(s, i as int, n as int);
                assert forall|v2: int|
                    0 <= v2 < n as int && v2 != i as int implies vmag_spec(
                    #[trigger] vsub_spec(s[v2], s[i as int]),
                ) != 0 by {
                }
                lemma_eccm_prefix_bound(s, i as int, n as int);
                assert forall|k: int| 0 <= k < ints((field@[i as int])@).len() implies -(
                OP_LIMIT as int) < #[trigger] ints((field@[i as int])@)[k] < OP_LIMIT as int by {
                    assert(ints((field@[i as int])@)[k] == eccmember_spec(s, i as int)[k]);
                    assert((n as int) * (SCALE as int) < OP_LIMIT as int) by (nonlinear_arith)
                        requires
                            0 <= n as int <= COUNT_LIMIT as int,
                    ;
                }
                assert(ints((field@[i as int])@).len() == s[i as int].len());
            }
            let m = mag_raw(&field[i]);
            proof {
                assert(m as int <= (m as int) * (nm1 as int)) by (nonlinear_arith)
                    requires
                        nm1 as int >= 1,
                        m as int >= 0,
                ;
                assert((m as int) * (nm1 as int) >= 0) by (nonlinear_arith)
                    requires
                        nm1 as int >= 1,
                        m as int >= 0,
                ;
                vstd::arithmetic::mul::lemma_mul_is_commutative(m as int, nm1 as int);
                lemma_div_trunc_bound(m as int, nm1 as int, m as int);
                vstd::arithmetic::div_mod::lemma_div_pos_is_pos(m as int, nm1 as int);
            }
            let e = div_i128(m as i128, nm1 as i128);
            r.push(e as i64);
            i = i + 1;
        }
        Ok(r)
    }

    /// Eccentricity-defined medoid and outlier: the members with the
    /// least and greatest scalar eccentricity, each with the first index
    /// attaining it.  Can disagree with `medoid`, which weighs total
    /// distance rather than directional imbalance.
    pub fn emedoid(&self) -> (r: Result<(i64, usize, i64, usize), StatsError>)
        requires
            self.wf(),
        ensures
            match r {
                Ok((emed, medi, eout, outi)) => {
                    &&& self@.len() >= 2
                    &&& all_distinct(self@)
                    &&& medi < self@.len()
                    &&& outi < self@.len()
                    &&& emed as int == eccmember_scalar_spec(self@, medi as int)
                    &&& eout as int == eccmember_scalar_spec(self@, outi as int)
                    &&& forall|i: int|
                        0 <= i < self@.len() ==> emed as int <= #[trigger] eccmember_scalar_spec(
                            self@,
                            i,
                        ) && eccmember_scalar_spec(self@, i) <= eout as int
                    &&& forall|i: int| 0 <= i < medi as int ==> #[trigger] eccmember_scalar_spec(
                        self@,
                        i,
                    ) > emed as int
                    &&& forall|i: int| 0 <= i < outi as int ==> #[trigger] eccmember_scalar_spec(
                        self@,
                        i,
                    ) < eout as int
                },
                Err(StatsError::EmptyInput) => self@.len() == 1,
                Err(StatsError::DegenerateVector) => self@.len() >= 2 && !all_distinct(self@),
                Err(_) => false,
            },
    {
        let se = match self.scalarecc() {
            Ok(v) => v,
            Err(e) => {
                return Err(e);
            },
        };
        let mm = minmax_i64(&se);
        proof {
            assert forall|i: int| 0 <= i < self@.len() implies mm.0 as int <= #[trigger]
                eccmember_scalar_spec(self@, i) && eccmember_scalar_spec(self@, i)
                <= mm.2 as int by {
                assert(se@[i] as int == eccmember_scalar_spec(self@, i));
            }
            assert forall|i: int| 0 <= i < mm.1 as int implies #[trigger] eccmember_scalar_spec(
                self@,
                i,
            ) > mm.0 as int by {
                assert(se@[i] as int == eccmember_scalar_spec(self@, i));
            }
            assert forall|i: int| 0 <= i < mm.3 as int implies #[trigger] eccmember_scalar_spec(
                self@,
                i,
            ) < mm.2 as int by {
                assert(se@[i] as int == eccmember_scalar_spec(self@, i));
            }
        }
        Ok(mm)
    }
}

} // verus!
