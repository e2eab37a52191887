//! Vector algebra on fixed-point vectors: addition, subtraction, scaling,
//! dot product, magnitude, unit vector, coordinatewise reciprocal, and
//! Euclidean distance, each pinned to a spec-level definition over `Seq<int>`.

use vstd::prelude::*;
use vstd::arithmetic::mul::*;
use crate::arith::{sqrt_floor, div_trunc, div_i128, isqrt, lemma_sqrt_floor_bounds,
    lemma_sqrt_floor_lower, lemma_sqrt_floor_upper, lemma_div_trunc_bound, lemma_div_trunc_neg};
use crate::{StatsError, SCALE, COORD_LIMIT, DIM_LIMIT, OP_LIMIT};

verus! {

/// The coordinates of an executable vector as mathematical integers.
pub open spec fn ints(s: Seq<i64>) -> Seq<int> {
    s.map_values(|x: i64| x as int)
}

/// Every coordinate lies strictly between `-b` and `b`.
pub open spec fn bounded(s: Seq<int>, b: int) -> bool {
    forall|k: int| 0 <= k < s.len() ==> -b < #[trigger] s[k] < b
}

/// The zero vector of dimension `d`.
pub open spec fn zero_seq(d: nat) -> Seq<int> {
    Seq::new(d, |k: int| 0)
}

/// Coordinatewise sum.
pub open spec fn vadd_spec(a: Seq<int>, b: Seq<int>) -> Seq<int> {
    Seq::new(a.len(), |k: int| a[k] + b[k])
}

/// Coordinatewise difference.
pub open spec fn vsub_spec(a: Seq<int>, b: Seq<int>) -> Seq<int> {
    Seq::new(a.len(), |k: int| a[k] - b[k])
}

/// Coordinatewise negation.
pub open spec fn vneg_spec(a: Seq<int>) -> Seq<int> {
    Seq::new(a.len(), |k: int| -a[k])
}

/// Scaling by the fixed-point scalar `s` (the real factor `s/SCALE`).
pub open spec fn smult_spec(a: Seq<int>, s: int) -> Seq<int> {
    Seq::new(a.len(), |k: int| div_trunc(a[k] * s, SCALE as int))
}

/// Fixed-point reciprocal of one coordinate: the real number `SCALE/x`
/// in units of `1/SCALE`, rounded toward zero.
pub open spec fn recip_spec(x: int) -> int {
    if x >= 0 {
        div_trunc((SCALE as int) * (SCALE as int), x)
    } else {
        -div_trunc((SCALE as int) * (SCALE as int), -x)
    }
}

/// Coordinatewise fixed-point reciprocal.
pub open spec fn vinverse_spec(a: Seq<int>) -> Seq<int> {
    Seq::new(a.len(), |k: int| recip_spec(a[k]))
}

/// Dot product of the first `m` coordinates.
pub open spec fn dot_prefix(a: Seq<int>, b: Seq<int>, m: int) -> int
    decreases m,
{
    if m <= 0 {
        0
    } else {
        dot_prefix(a, b, m - 1) + a[m - 1] * b[m - 1]
    }
}

/// Dot product.
pub open spec fn dotp_spec(a: Seq<int>, b: Seq<int>) -> int {
    dot_prefix(a, b, a.len() as int)
}

/// Squared magnitude.
pub open spec fn vmagsq_spec(a: Seq<int>) -> int {
    dotp_spec(a, a)
}

/// Magnitude: integer square root of the squared magnitude, so an
/// `S`-scaled vector's magnitude is again `S`-scaled.
pub open spec fn vmag_spec(a: Seq<int>) -> int {
    sqrt_floor(vmagsq_spec(a))
}

/// Squared Euclidean distance.
pub open spec fn vdistsq_spec(a: Seq<int>, b: Seq<int>) -> int {
    vmagsq_spec(vsub_spec(a, b))
}

/// Euclidean distance.
pub open spec fn vdist_spec(a: Seq<int>, b: Seq<int>) -> int {
    sqrt_floor(vdistsq_spec(a, b))
}

/// Unit vector: each coordinate scaled to `SCALE/|a|` of itself, so the
/// result has magnitude close to `SCALE` (the fixed-point one).
pub open spec fn vunit_spec(a: Seq<int>) -> Seq<int> {
    Seq::new(a.len(), |k: int| div_trunc(a[k] * (SCALE as int), vmag_spec(a)))
}

/// A dot product of a vector with itself is nonnegative.
pub proof fn lemma_dot_prefix_nonneg(a: Seq<int>, m: int)
    ensures
        dot_prefix(a, a, m) >= 0,
    decreases m,
{
    if m > 0 {
        lemma_dot_prefix_nonneg(a, m - 1);
        assert(a[m - 1] * a[m - 1] >= 0) by (nonlinear_arith);
    }
}

/// A dot product of vectors bounded by `ca` and `cb` is bounded by
/// `m * ca * cb` over its first `m` coordinates.
pub proof fn lemma_dot_prefix_bound(a: Seq<int>, b: Seq<int>, ca: int, cb: int, m: int)
    requires
        0 <= m,
        m <= a.len(),
        m <= b.len(),
        bounded(a, ca),
        bounded(b, cb),
        ca >= 0,
        cb >= 0,
    ensures
        -(m * ca * cb) <= dot_prefix(a, b, m) <= m * ca * cb,
    decreases m,
{
    if m > 0 {
        lemma_dot_prefix_bound(a, b, ca, cb, m - 1);
        assert(-(ca * cb) <= a[m - 1] * b[m - 1] <= ca * cb) by (nonlinear_arith)
            requires
                -ca < a[m - 1] < ca,
                -cb < b[m - 1] < cb,
                ca >= 0,
                cb >= 0,
        ;
        assert(m * ca * cb == (m - 1) * ca * cb + ca * cb) by (nonlinear_arith);
    } else {
        assert(m * ca * cb == 0) by (nonlinear_arith)
            requires
                m == 0,
        ;
    }
}

/// Each squared coordinate is at most the squared magnitude.
proof fn lemma_term_le_dot_upto(a: Seq<int>, k: int, m: int)
    requires
        0 <= k < m,
    ensures
        a[k] * a[k] <= dot_prefix(a, a, m),
    decreases m,
{
    if m - 1 == k {
        lemma_dot_prefix_nonneg(a, m - 1);
    } else {
        lemma_term_le_dot_upto(a, k, m - 1);
        assert(a[m - 1] * a[m - 1] >= 0) by (nonlinear_arith);
    }
}

/// No coordinate exceeds the vector's magnitude in absolute value.
pub proof fn lemma_coord_le_mag(a: Seq<int>, k: int)
    requires
        0 <= k < a.len(),
    ensures
        -vmag_spec(a) <= a[k] <= vmag_spec(a),
{
    lemma_term_le_dot_upto(a, k, a.len() as int);
    if a[k] >= 0 {
        lemma_sqrt_floor_lower(vmagsq_spec(a), a[k]);
    } else {
        assert((-a[k]) * (-a[k]) == a[k] * a[k]) by (nonlinear_arith);
        lemma_sqrt_floor_lower(vmagsq_spec(a), -a[k]);
    }
}

/// The magnitude is nonnegative.
pub proof fn lemma_vmag_nonneg(a: Seq<int>)
    ensures
        vmag_spec(a) >= 0,
{
    lemma_dot_prefix_nonneg(a, a.len() as int);
    lemma_sqrt_floor_bounds(vmagsq_spec(a));
}

/// Negating a vector keeps its squared magnitude.
pub proof fn lemma_dot_prefix_neg(a: Seq<int>, m: int)
    requires
        m <= a.len(),
    ensures
        dot_prefix(vneg_spec(a), vneg_spec(a), m) == dot_prefix(a, a, m),
    decreases m,
{
    if m > 0 {
        lemma_dot_prefix_neg(a, m - 1);
        assert((-a[m - 1]) * (-a[m - 1]) == a[m - 1] * a[m - 1]) by (nonlinear_arith);
    }
}

/// Swapping the arguments of a difference negates it.
pub proof fn lemma_vsub_antisym(a: Seq<int>, b: Seq<int>)
    requires
        a.len() == b.len(),
    ensures
        vsub_spec(a, b) == vneg_spec(vsub_spec(b, a)),
{
    assert(vsub_spec(a, b) =~= vneg_spec(vsub_spec(b, a)));
}

/// The distance between two points does not depend on their order.
pub proof fn lemma_vdist_symmetric(a: Seq<int>, b: Seq<int>)
    requires
        a.len() == b.len(),
    ensures
        vdistsq_spec(a, b) == vdistsq_spec(b, a),
        vdist_spec(a, b) == vdist_spec(b, a),
{
    lemma_vsub_antisym(a, b);
    lemma_dot_prefix_neg(vsub_spec(b, a), vsub_spec(b, a).len() as int);
}

/// Unit vectors of opposite differences are exact negations of each other
/// (division toward zero is symmetric under negation).
pub proof fn lemma_vunit_antisym(a: Seq<int>, b: Seq<int>)
    requires
        a.len() == b.len(),
        vmag_spec(vsub_spec(a, b)) > 0,
    ensures
        vunit_spec(vsub_spec(a, b)) == vneg_spec(vunit_spec(vsub_spec(b, a))),
{
    lemma_vdist_symmetric(a, b);
    let u = vsub_spec(a, b);
    let w = vsub_spec(b, a);
    lemma_vsub_antisym(a, b);
    assert forall|k: int| 0 <= k < u.len() implies vunit_spec(u)[k] == -vunit_spec(w)[k] by {
        assert(u[k] == -w[k]);
        assert(u[k] * (SCALE as int) == -(w[k] * (SCALE as int))) by (nonlinear_arith)
            requires
                u[k] == -w[k],
        ;
        lemma_div_trunc_neg(w[k] * (SCALE as int), vmag_spec(u));
    }
    assert(vunit_spec(vsub_spec(a, b)) =~= vneg_spec(vunit_spec(vsub_spec(b, a))));
}

/// Translating both endpoints by the same vector keeps their distance:
/// the distance objective of the geometric median is translation-invariant.
pub proof fn lemma_vdist_translate(a: Seq<int>, b: Seq<int>, t: Seq<int>)
    requires
        a.len() == b.len(),
        b.len() == t.len(),
    ensures
        vdist_spec(vadd_spec(a, t), vadd_spec(b, t)) == vdist_spec(a, b),
        vdistsq_spec(vadd_spec(a, t), vadd_spec(b, t)) == vdistsq_spec(a, b),
{
    assert(vsub_spec(vadd_spec(a, t), vadd_spec(b, t)) =~= vsub_spec(a, b));
}

/// Dot product, exact.
pub(crate) fn dotp_raw(a: &Vec<i64>, b: &Vec<i64>) -> (r: i128)
    requires
        a@.len() == b@.len(),
        a@.len() <= DIM_LIMIT,
        bounded(ints(a@), OP_LIMIT as int),
        bounded(ints(b@), OP_LIMIT as int),
    ensures
        r == dotp_spec(ints(a@), ints(b@)),
        -((a@.len() as int) * (OP_LIMIT as int) * (OP_LIMIT as int)) <= r
            <= (a@.len() as int) * (OP_LIMIT as int) * (OP_LIMIT as int),
{
    let ghost sa = ints(a@);
    let ghost sb = ints(b@);
    let mut acc: i128 = 0;
    let mut i: usize = 0;
    while i < a.len()
        invariant
            0 <= i <= a@.len(),
            a@.len() == b@.len(),
            a@.len() <= DIM_LIMIT,
            bounded(sa, OP_LIMIT as int),
            bounded(sb, OP_LIMIT as int),
            sa == ints(a@),
            sb == ints(b@),
            acc == dot_prefix(sa, sb, i as int),
            -((i as int) * (OP_LIMIT as int) * (OP_LIMIT as int)) <= acc
                <= (i as int) * (OP_LIMIT as int) * (OP_LIMIT as int),
        decreases a@.len() - i,
    {
        proof {
            let ai = sa[i as int];
            let bi = sb[i as int];
            assert(-(OP_LIMIT as int) < ai < OP_LIMIT as int);
            assert(-(OP_LIMIT as int) < bi < OP_LIMIT as int);
            assert(-((OP_LIMIT as int) * (OP_LIMIT as int)) <= ai * bi <= (OP_LIMIT as int) * (
            OP_LIMIT as int)) by (nonlinear_arith)
                requires
                    -(OP_LIMIT as int) < ai < OP_LIMIT as int,
                    -(OP_LIMIT as int) < bi < OP_LIMIT as int,
            ;
            assert(((i + 1) as int) * (OP_LIMIT as int) * (OP_LIMIT as int) == (i as int) * (
            OP_LIMIT as int) * (OP_LIMIT as int) + (OP_LIMIT as int) * (OP_LIMIT as int))
                by (nonlinear_arith);
            assert((DIM_LIMIT as int) * (OP_LIMIT as int) * (OP_LIMIT as int) < i128::MAX)
                by (nonlinear_arith);
            assert((i as int) * (OP_LIMIT as int) * (OP_LIMIT as int) <= (DIM_LIMIT as int) * (
            OP_LIMIT as int) * (OP_LIMIT as int)) by (nonlinear_arith)
                requires
                    0 <= i as int <= DIM_LIMIT as int,
            ;
        }
        acc = acc + (a[i] as i128) * (b[i] as i128);
        i = i + 1;
    }
    acc
}

/// Squared Euclidean distance, exact.
pub(crate) fn distsq_raw(a: &Vec<i64>, b: &Vec<i64>) -> (r: i128)
    requires
        a@.len() == b@.len(),
        a@.len() <= DIM_LIMIT,
        bounded(ints(a@), OP_LIMIT as int),
        bounded(ints(b@), OP_LIMIT as int),
    ensures
        r == vdistsq_spec(ints(a@), ints(b@)),
        0 <= r <= (a@.len() as int) * (4 * OP_LIMIT as int) * (OP_LIMIT as int),
{
    let ghost dv = vsub_spec(ints(a@), ints(b@));
    proof {
        assert(bounded(dv, 2 * OP_LIMIT as int));
        lemma_dot_prefix_nonneg(dv, a@.len() as int);
        lemma_dot_prefix_bound(dv, dv, 2 * OP_LIMIT as int, 2 * OP_LIMIT as int, a@.len() as int);
        assert((a@.len() as int) * (2 * OP_LIMIT as int) * (2 * OP_LIMIT as int) == (a@.len() as int)
            * (4 * OP_LIMIT as int) * (OP_LIMIT as int)) by (nonlinear_arith);
    }
    let mut acc: i128 = 0;
    let mut i: usize = 0;
    while i < a.len()
        invariant
            0 <= i <= a@.len(),
            a@.len() == b@.len(),
            a@.len() <= DIM_LIMIT,
            bounded(ints(a@), OP_LIMIT as int),
            bounded(ints(b@), OP_LIMIT as int),
            dv == vsub_spec(ints(a@), ints(b@)),
            acc == dot_prefix(dv, dv, i as int),
            0 <= acc <= (i as int) * (4 * OP_LIMIT as int) * (OP_LIMIT as int),
        decreases a@.len() - i,
    {
        proof {
            let ai = ints(a@)[i as int];
            let bi = ints(b@)[i as int];
            assert(-(OP_LIMIT as int) < ai < OP_LIMIT as int);
            assert(-(OP_LIMIT as int) < bi < OP_LIMIT as int);
            assert(dv[i as int] == ai - bi);
            let di = dv[i as int];
            assert(0 <= di * di <= (2 * OP_LIMIT as int) * (2 * OP_LIMIT as int))
                by (nonlinear_arith)
                requires
                    -(2 * OP_LIMIT as int) < di < 2 * OP_LIMIT as int,
            ;
            assert(((i + 1) as int) * (4 * OP_LIMIT as int) * (OP_LIMIT as int) == (i as int) * (4
                * OP_LIMIT as int) * (OP_LIMIT as int) + (2 * OP_LIMIT as int) * (2
                * OP_LIMIT as int)) by (nonlinear_arith);
            lemma_dot_prefix_nonneg(dv, i + 1);
            lemma_dot_prefix_bound(dv, dv, 2 * OP_LIMIT as int, 2 * OP_LIMIT as int, i + 1);
            assert(((i + 1) as int) * (2 * OP_LIMIT as int) * (2 * OP_LIMIT as int) == ((i
                + 1) as int) * (4 * OP_LIMIT as int) * (OP_LIMIT as int)) by (nonlinear_arith);
            assert(((i + 1) as int) * (4 * OP_LIMIT as int) * (OP_LIMIT as int) <= (DIM_LIMIT as int)
                * (4 * OP_LIMIT as int) * (OP_LIMIT as int)) by (nonlinear_arith)
                requires
                    0 <= (i + 1) as int <= DIM_LIMIT as int,
            ;
            assert((DIM_LIMIT as int) * (4 * OP_LIMIT as int) * (OP_LIMIT as int) < i128::MAX)
                by (nonlinear_arith);
        }
        let dk: i64 = a[i] - b[i];
        acc = acc + (dk as i128) * (dk as i128);
        i = i + 1;
    }
    acc
}

/// Euclidean distance, exact floor.
pub(crate) fn dist_raw(a: &Vec<i64>, b: &Vec<i64>) -> (r: i64)
    requires
        a@.len() == b@.len(),
        a@.len() <= DIM_LIMIT,
        bounded(ints(a@), OP_LIMIT as int),
        bounded(ints(b@), OP_LIMIT as int),
    ensures
        r == vdist_spec(ints(a@), ints(b@)),
        0 <= r < 0x200000000000000i64,
{
    let sq = distsq_raw(a, b);
    proof {
        assert((a@.len() as int) * (4 * OP_LIMIT as int) * (OP_LIMIT as int) < (
        0x200000000000000int) * (0x200000000000000int)) by (nonlinear_arith)
            requires
                a@.len() as int <= DIM_LIMIT as int,
        ;
        lemma_sqrt_floor_upper(sq as int, 0x200000000000000int);
        lemma_sqrt_floor_bounds(sq as int);
    }
    let r = isqrt(sq as u128);
    r as i64
}

/// Magnitude, exact floor.
pub(crate) fn mag_raw(a: &Vec<i64>) -> (r: i64)
    requires
        a@.len() <= DIM_LIMIT,
        bounded(ints(a@), OP_LIMIT as int),
    ensures
        r == vmag_spec(ints(a@)),
        0 <= r < 0x200000000000000i64,
{
    let sq = dotp_raw(a, a);
    proof {
        lemma_dot_prefix_nonneg(ints(a@), a@.len() as int);
        assert((a@.len() as int) * (OP_LIMIT as int) * (OP_LIMIT as int) < (0x200000000000000int)
            * (0x200000000000000int)) by (nonlinear_arith)
            requires
                a@.len() as int <= DIM_LIMIT as int,
        ;
        lemma_sqrt_floor_upper(sq as int, 0x200000000000000int);
        lemma_sqrt_floor_bounds(sq as int);
    }
    let r = isqrt(sq as u128);
    r as i64
}

/// Unit vector of `a`, whose exact magnitude `m` the caller has computed.
pub(crate) fn unit_scaled(a: &Vec<i64>, m: i64) -> (r: Vec<i64>)
    requires
        a@.len() <= DIM_LIMIT,
        bounded(ints(a@), OP_LIMIT as int),
        m == vmag_spec(ints(a@)),
        m > 0,
    ensures
        ints(r@) == vunit_spec(ints(a@)),
        r@.len() == a@.len(),
        forall|k: int| 0 <= k < r@.len() ==> -(SCALE as int) <= #[trigger] (r@[k] as int)
            <= SCALE as int,
{
    let ghost sa = ints(a@);
    let mut r: Vec<i64> = Vec::new();
    let mut i: usize = 0;
    while i < a.len()
        invariant
            0 <= i <= a@.len(),
            a@.len() <= DIM_LIMIT,
            bounded(sa, OP_LIMIT as int),
            sa == ints(a@),
            m == vmag_spec(sa),
            m > 0,
            r@.len() == i,
            forall|k: int| 0 <= k < i ==> #[trigger] (r@[k] as int) == vunit_spec(sa)[k],
            forall|k: int| 0 <= k < i ==> -(SCALE as int) <= #[trigger] (r@[k] as int)
                <= SCALE as int,
        decreases a@.len() - i,
    {
        proof {
            lemma_coord_le_mag(sa, i as int);
            assert(-((SCALE as int) * (m as int)) <= sa[i as int] * (SCALE as int) <= (
            SCALE as int) * (m as int)) by (nonlinear_arith)
                requires
                    -(m as int) <= sa[i as int] <= m as int,
                    SCALE as int > 0,
            ;
            assert((SCALE as int) * (m as int) < 0x80000000000000000000000int)
                by (nonlinear_arith)
                requires
                    0 < (m as int) && (m as int) < 0x8000000000000000int,
            ;
            lemma_mul_is_commutative(SCALE as int, m as int);
            lemma_div_trunc_bound(sa[i as int] * (SCALE as int), m as int, SCALE as int);
        }
        let q = div_i128((a[i] as i128) * (SCALE as i128), m as i128);
        r.push(q as i64);
        i = i + 1;
    }
    proof {
        assert forall|k: int| 0 <= k < r@.len() implies ints(r@)[k] == vunit_spec(sa)[k] by {
            assert(ints(r@)[k] == r@[k] as int);
        }
        assert(ints(r@) =~= vunit_spec(sa));
    }
    r
}

/// Vector addition; the vectors must have one dimension.
pub fn vadd(a: &Vec<i64>, b: &Vec<i64>) -> (r: Result<Vec<i64>, StatsError>)
    requires
        bounded(ints(a@), OP_LIMIT as int),
        bounded(ints(b@), OP_LIMIT as int),
    ensures
        match r {
            Ok(v) => a@.len() == b@.len() && ints(v@) == vadd_spec(ints(a@), ints(b@)),
            Err(e) => a@.len() != b@.len() && e == StatsError::DimensionMismatch,
        },
{
    if a.len() != b.len() {
        return Err(StatsError::DimensionMismatch);
    }
    let mut r: Vec<i64> = Vec::new();
    let mut i: usize = 0;
    while i < a.len()
        invariant
            0 <= i <= a@.len(),
            a@.len() == b@.len(),
            bounded(ints(a@), OP_LIMIT as int),
            bounded(ints(b@), OP_LIMIT as int),
            r@.len() == i,
            forall|k: int| 0 <= k < i ==> #[trigger] (r@[k] as int) == vadd_spec(
                ints(a@),
                ints(b@),
            )[k],
        decreases a@.len() - i,
    {
        proof {
            assert(-(OP_LIMIT as int) < ints(a@)[i as int] < OP_LIMIT as int);
            assert(-(OP_LIMIT as int) < ints(b@)[i as int] < OP_LIMIT as int);
        }
        r.push(a[i] + b[i]);
        i = i + 1;
    }
    proof {
        assert forall|k: int| 0 <= k < r@.len() implies ints(r@)[k] == vadd_spec(
            ints(a@),
            ints(b@),
        )[k] by {
            assert(ints(r@)[k] == r@[k] as int);
        }
        assert(ints(r@) =~= vadd_spec(ints(a@), ints(b@)));
    }
    Ok(r)
}

/// Vector subtraction; the vectors must have one dimension.
pub fn vsub(a: &Vec<i64>, b: &Vec<i64>) -> (r: Result<Vec<i64>, StatsError>)
    requires
        bounded(ints(a@), OP_LIMIT as int),
        bounded(ints(b@), OP_LIMIT as int),
    ensures
        match r {
            Ok(v) => a@.len() == b@.len() && ints(v@) == vsub_spec(ints(a@), ints(b@)),
            Err(e) => a@.len() != b@.len() && e == StatsError::DimensionMismatch,
        },
{
    if a.len() != b.len() {
        return Err(StatsError::DimensionMismatch);
    }
    Ok(vsub_raw(a, b))
}

/// Vector subtraction with the dimensions already known to agree.
pub(crate) fn vsub_raw(a: &Vec<i64>, b: &Vec<i64>) -> (r: Vec<i64>)
    requires
        a@.len() == b@.len(),
        bounded(ints(a@), OP_LIMIT as int),
        bounded(ints(b@), OP_LIMIT as int),
    ensures
        ints(r@) == vsub_spec(ints(a@), ints(b@)),
        r@.len() == a@.len(),
        bounded(ints(r@), 2 * OP_LIMIT as int),
{
    let mut r: Vec<i64> = Vec::new();
    let mut i: usize = 0;
    while i < a.len()
        invariant
            0 <= i <= a@.len(),
            a@.len() == b@.len(),
            bounded(ints(a@), OP_LIMIT as int),
            bounded(ints(b@), OP_LIMIT as int),
            r@.len() == i,
            forall|k: int| 0 <= k < i ==> #[trigger] (r@[k] as int) == vsub_spec(
                ints(a@),
                ints(b@),
            )[k],
        decreases a@.len() - i,
    {
        proof {
            assert(-(OP_LIMIT as int) < ints(a@)[i as int] < OP_LIMIT as int);
            assert(-(OP_LIMIT as int) < ints(b@)[i as int] < OP_LIMIT as int);
        }
        r.push(a[i] - b[i]);
        i = i + 1;
    }
    proof {
        assert forall|k: int| 0 <= k < r@.len() implies ints(r@)[k] == vsub_spec(
            ints(a@),
            ints(b@),
        )[k] by {
            assert(ints(r@)[k] == r@[k] as int);
        }
        assert(ints(r@) =~= vsub_spec(ints(a@), ints(b@)));
        assert forall|k: int| 0 <= k < r@.len() implies -(2 * OP_LIMIT as int) < #[trigger] ints(
            r@,
        )[k] < 2 * OP_LIMIT as int by {
            assert(ints(r@)[k] == ints(a@)[k] - ints(b@)[k]);
        }
    }
    r
}

/// Scalar multiplication by the fixed-point factor `s/SCALE`.
pub fn smult(a: &Vec<i64>, s: i64) -> (r: Vec<i64>)
    requires
        bounded(ints(a@), COORD_LIMIT as int),
        -COORD_LIMIT < s < COORD_LIMIT,
    ensures
        ints(r@) == smult_spec(ints(a@), s as int),
{
    let mut r: Vec<i64> = Vec::new();
    let mut i: usize = 0;
    while i < a.len()
        invariant
            0 <= i <= a@.len(),
            bounded(ints(a@), COORD_LIMIT as int),
            -COORD_LIMIT < s < COORD_LIMIT,
            r@.len() == i,
            forall|k: int| 0 <= k < i ==> #[trigger] (r@[k] as int) == smult_spec(
                ints(a@),
                s as int,
            )[k],
        decreases a@.len() - i,
    {
        proof {
            let ai = ints(a@)[i as int];
            assert(-(COORD_LIMIT as int) < ai < COORD_LIMIT as int);
            assert(-((COORD_LIMIT as int) * (COORD_LIMIT as int)) <= ai * (s as int) <= (
            COORD_LIMIT as int) * (COORD_LIMIT as int)) by (nonlinear_arith)
                requires
                    -(COORD_LIMIT as int) < ai < COORD_LIMIT as int,
                    -(COORD_LIMIT as int) < (s as int) && (s as int) < COORD_LIMIT as int,
            ;
            assert((COORD_LIMIT as int) * (COORD_LIMIT as int) == (SCALE as int)
                * 0x1000000000000000int);
            lemma_mul_is_commutative(SCALE as int, 0x1000000000000000int);
            lemma_div_trunc_bound(ai * (s as int), SCALE as int, 0x1000000000000000int);
        }
        let q = div_i128((a[i] as i128) * (s as i128), SCALE as i128);
        r.push(q as i64);
        i = i + 1;
    }
    proof {
        assert forall|k: int| 0 <= k < r@.len() implies ints(r@)[k] == smult_spec(
            ints(a@),
            s as int,
        )[k] by {
            assert(ints(r@)[k] == r@[k] as int);
        }
        assert(ints(r@) =~= smult_spec(ints(a@), s as int));
    }
    r
}

/// Dot (scalar) product of two vectors.
pub fn dotp(a: &Vec<i64>, b: &Vec<i64>) -> (r: Result<i128, StatsError>)
    requires
        a@.len() <= DIM_LIMIT,
        bounded(ints(a@), OP_LIMIT as int),
        bounded(ints(b@), OP_LIMIT as int),
    ensures
        match r {
            Ok(v) => a@.len() == b@.len() && v == dotp_spec(ints(a@), ints(b@)),
            Err(e) => a@.len() != b@.len() && e == StatsError::DimensionMismatch,
        },
{
    if a.len() != b.len() {
        return Err(StatsError::DimensionMismatch);
    }
    Ok(dotp_raw(a, b))
}

/// Squared magnitude of a vector.
pub fn vmagsq(a: &Vec<i64>) -> (r: i128)
    requires
        a@.len() <= DIM_LIMIT,
        bounded(ints(a@), OP_LIMIT as int),
    ensures
        r == vmagsq_spec(ints(a@)),
        r >= 0,
{
    proof {
        lemma_dot_prefix_nonneg(ints(a@), a@.len() as int);
    }
    dotp_raw(a, a)
}

/// Magnitude (Euclidean norm) of a vector, exact floor.
pub fn vmag(a: &Vec<i64>) -> (r: i64)
    requires
        a@.len() <= DIM_LIMIT,
        bounded(ints(a@), OP_LIMIT as int),
    ensures
        r == vmag_spec(ints(a@)),
        r >= 0,
{
    mag_raw(a)
}

/// Squared Euclidean distance between two points.
pub fn vdistsq(a: &Vec<i64>, b: &Vec<i64>) -> (r: Result<i128, StatsError>)
    requires
        a@.len() <= DIM_LIMIT,
        bounded(ints(a@), OP_LIMIT as int),
        bounded(ints(b@), OP_LIMIT as int),
    ensures
        match r {
            Ok(v) => a@.len() == b@.len() && v == vdistsq_spec(ints(a@), ints(b@)),
            Err(e) => a@.len() != b@.len() && e == StatsError::DimensionMismatch,
        },
{
    if a.len() != b.len() {
        return Err(StatsError::DimensionMismatch);
    }
    Ok(distsq_raw(a, b))
}

/// Euclidean distance between two points, exact floor.
pub fn vdist(a: &Vec<i64>, b: &Vec<i64>) -> (r: Result<i64, StatsError>)
    requires
        a@.len() <= DIM_LIMIT,
        bounded(ints(a@), OP_LIMIT as int),
        bounded(ints(b@), OP_LIMIT as int),
    ensures
        match r {
            Ok(v) => a@.len() == b@.len() && v == vdist_spec(ints(a@), ints(b@)),
            Err(e) => a@.len() != b@.len() && e == StatsError::DimensionMismatch,
        },
{
    if a.len() != b.len() {
        return Err(StatsError::DimensionMismatch);
    }
    Ok(dist_raw(a, b))
}

/// Unit vector in the direction of `a`; fails on the zero vector, whose
/// direction is undefined.
pub fn vunit(a: &Vec<i64>) -> (r: Result<Vec<i64>, StatsError>)
    requires
        a@.len() <= DIM_LIMIT,
        bounded(ints(a@), OP_LIMIT as int),
    ensures
        match r {
            Ok(v) => vmag_spec(ints(a@)) != 0 && ints(v@) == vunit_spec(ints(a@)),
            Err(e) => vmag_spec(ints(a@)) == 0 && e == StatsError::DegenerateVector,
        },
{
    let m = mag_raw(a);
    if m == 0 {
        return Err(StatsError::DegenerateVector);
    }
    Ok(unit_scaled(a, m))
}

/// Coordinatewise fixed-point reciprocal; fails if any coordinate is zero.
pub fn vinverse(a: &Vec<i64>) -> (r: Result<Vec<i64>, StatsError>)
    ensures
        match r {
            Ok(v) => (forall|k: int| 0 <= k < a@.len() ==> ints(a@)[k] != 0) && ints(v@)
                == vinverse_spec(ints(a@)),
            Err(e) => (exists|k: int| 0 <= k < a@.len() && ints(a@)[k] == 0) && e
                == StatsError::DegenerateVector,
        },
{
    let mut r: Vec<i64> = Vec::new();
    let mut i: usize = 0;
    while i < a.len()
        invariant
            0 <= i <= a@.len(),
            r@.len() == i,
            forall|k: int| 0 <= k < i ==> ints(a@)[k] != 0,
            forall|k: int| 0 <= k < i ==> #[trigger] (r@[k] as int) == vinverse_spec(ints(a@))[k],
        decreases a@.len() - i,
    {
        let x = a[i];
        if x == 0 {
            proof {
                assert(ints(a@)[i as int] == 0);
            }
            return Err(StatsError::DegenerateVector);
        }
        let q: i128 = if x > 0 {
            proof {
                let ss = (SCALE as int) * (SCALE as int);
                assert(ss <= ss * (x as int)) by (nonlinear_arith)
                    requires
                        x as int >= 1,
                        ss > 0,
                ;
                lemma_mul_is_commutative(ss, x as int);
                lemma_div_trunc_bound(ss, x as int, ss);
            }
            div_i128((SCALE as i128) * (SCALE as i128), x as i128)
        } else {
            proof {
                let ss = (SCALE as int) * (SCALE as int);
                assert(ss <= ss * (-(x as int))) by (nonlinear_arith)
                    requires
                        -(x as int) >= 1,
                        ss > 0,
                ;
                lemma_mul_is_commutative(ss, -(x as int));
                lemma_div_trunc_bound(ss, -(x as int), ss);
            }
            -div_i128((SCALE as i128) * (SCALE as i128), -(x as i128))
        };
        r.push(q as i64);
        i = i + 1;
    }
    proof {
        assert forall|k: int| 0 <= k < r@.len() implies ints(r@)[k] == vinverse_spec(
            ints(a@),
        )[k] by {
            assert(ints(r@)[k] == r@[k] as int);
        }
        assert(ints(r@) =~= vinverse_spec(ints(a@)));
    }
    Ok(r)
}

} // verus!
