//! A read-only ordered collection of `n` points of one dimension `d`,
//! validated on construction: the input of every set-level statistic.

use vstd::prelude::*;
use crate::vecops::{ints, bounded, vsub_spec, vsub_raw};
use crate::{StatsError, COORD_LIMIT, EST_LIMIT, DIM_LIMIT, COUNT_LIMIT};

verus! {

/// The coordinates of a vector of executable points as sequences of
/// mathematical integers.
pub open spec fn points_view(p: Seq<Vec<i64>>) -> Seq<Seq<int>> {
    p.map_values(|v: Vec<i64>| ints(v@))
}

/// A well-formed point set: at least one point, at least one dimension,
/// every point of the same dimension, every coordinate within the
/// machine bound `COORD_LIMIT`.
pub open spec fn wf_points(s: Seq<Seq<int>>) -> bool {
    &&& 1 <= s.len() <= COUNT_LIMIT
    &&& 1 <= s[0].len() <= DIM_LIMIT
    &&& forall|i: int| 0 <= i < s.len() ==> (#[trigger] s[i]).len() == s[0].len()
    &&& forall|i: int| 0 <= i < s.len() ==> bounded(#[trigger] s[i], COORD_LIMIT as int)
}

/// An ordered, immutable collection of points sharing one dimension.
#[derive(Debug)]
pub struct PointSet {
    pts: Vec<Vec<i64>>,
}

impl View for PointSet {
    type V = Seq<Seq<int>>;

    closed spec fn view(&self) -> Seq<Seq<int>> {
        points_view(self.pts@)
    }
}

impl PointSet {
    /// The construction invariant, which every method requires.
    pub open spec fn wf(&self) -> bool {
        wf_points(self@)
    }

    /// Builds a point set after validating it: the input must be
    /// non-empty, its points non-empty and of one common dimension.
    pub fn new(pts: Vec<Vec<i64>>) -> (r: Result<PointSet, StatsError>)
        requires
            pts@.len() <= COUNT_LIMIT,
            forall|i: int| 0 <= i < pts@.len() ==> (#[trigger] pts@[i])@.len() <= DIM_LIMIT,
            forall|i: int| 0 <= i < pts@.len() ==> bounded(ints((#[trigger] pts@[i])@),
                COORD_LIMIT as int),
        ensures
            match r {
                Ok(s) => {
                    &&& s@ == points_view(pts@)
                    &&& s.wf()
                    &&& pts@.len() >= 1
                    &&& pts@[0]@.len() >= 1
                    &&& forall|i: int| 0 <= i < pts@.len() ==> (#[trigger] pts@[i])@.len()
                        == pts@[0]@.len()
                },
                Err(StatsError::EmptyInput) => pts@.len() == 0 || pts@[0]@.len() == 0,
                Err(StatsError::DimensionMismatch) => {
                    &&& pts@.len() >= 1
                    &&& pts@[0]@.len() >= 1
                    &&& exists|i: int| 0 <= i < pts@.len() && (#[trigger] pts@[i])@.len()
                        != pts@[0]@.len()
                },
                Err(_) => false,
            },
    {
        if pts.len() == 0 {
            return Err(StatsError::EmptyInput);
        }
        let d = pts[0].len();
        if d == 0 {
            return Err(StatsError::EmptyInput);
        }
        let mut i: usize = 1;
        while i < pts.len()
            invariant
                1 <= i <= pts@.len(),
                d == pts@[0]@.len(),
                d >= 1,
                forall|k: int| 0 <= k < i ==> (#[trigger] pts@[k])@.len() == pts@[0]@.len(),
            decreases pts@.len() - i,
        {
            if pts[i].len() != d {
                proof {
                    assert(0 <= i < pts@.len() && pts@[i as int]@.len() != pts@[0]@.len());
                }
                return Err(StatsError::DimensionMismatch);
            }
            i = i + 1;
        }
        let s = PointSet { pts };
        proof {
            assert forall|k: int| 0 <= k < s@.len() implies (#[trigger] s@[k]).len()
                == s@[0].len() by {
                assert(s@[k] == ints(pts@[k]@));
            }
            assert forall|k: int| 0 <= k < s@.len() implies bounded(
                #[trigger] s@[k],
                COORD_LIMIT as int,
            ) by {
                assert(s@[k] == ints(pts@[k]@));
            }
        }
        Ok(s)
    }

    /// Number of points.
    pub fn len(&self) -> (r: usize)
        ensures
            r == self@.len(),
    {
        self.pts.len()
    }

    /// Dimension: the length of the first point.
    pub fn dim(&self) -> (r: usize)
        requires
            self@.len() >= 1,
        ensures
            r == self@[0].len(),
    {
        self.pts[0].len()
    }

    /// The `i`-th point.
    pub fn point(&self, i: usize) -> (r: &Vec<i64>)
        requires
            i < self@.len(),
        ensures
            ints(r@) == self@[i as int],
    {
        &self.pts[i]
    }

    /// The whole set, translated by `-m`: with `m` the geometric median
    /// this produces the zero-median form of the data.
    pub fn translate(&self, m: &Vec<i64>) -> (r: Result<Vec<Vec<i64>>, StatsError>)
        requires
            self.wf(),
            bounded(ints(m@), EST_LIMIT as int),
        ensures
            match r {
                Ok(v) => {
                    &&& m@.len() == self@[0].len()
                    &&& v@.len() == self@.len()
                    &&& forall|i: int| 0 <= i < v@.len() ==> points_view(v@)[i] == vsub_spec(
                        self@[i],
                        ints(m@),
                    )
                },
                Err(e) => m@.len() != self@[0].len() && e == StatsError::DimensionMismatch,
            },
    {
        if m.len() != self.dim() {
            return Err(StatsError::DimensionMismatch);
        }
        let n = self.len();
        let mut out: Vec<Vec<i64>> = Vec::new();
        let mut i: usize = 0;
        while i < n
            invariant
                0 <= i <= n,
                n == self@.len(),
                self.wf(),
                bounded(ints(m@), EST_LIMIT as int),
                m@.len() == self@[0].len(),
                out@.len() == i,
                forall|k: int| 0 <= k < i ==> ints((#[trigger] out@[k])@) == vsub_spec(
                    self@[k],
                    ints(m@),
                ),
            decreases n - i,
        {
            let p = self.point(i);
            let diff = vsub_raw(p, m);
            out.push(diff);
            i = i + 1;
        }
        proof {
            assert forall|k: int| 0 <= k < out@.len() implies points_view(out@)[k] == vsub_spec(
                self@[k],
                ints(m@),
            ) by {
                assert(points_view(out@)[k] == ints(out@[k]@));
            }
        }
        Ok(out)
    }
}

} // verus!
