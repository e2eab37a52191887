//! Laws of the distance-sum objective that the geometric median
//! minimizes: invariance under the rigid motions that the integer
//! coordinate grid can express exactly — uniform translation and point
//! reflection.  A candidate point moved the same way keeps its objective,
//! so the median of the moved set is the moved median.

use vstd::prelude::*;
use crate::vecops::{vadd_spec, vneg_spec, vsub_spec, vdist_spec, lemma_vdist_translate,
    lemma_dot_prefix_neg};
use crate::distance::{qsum_prefix, distsum_spec};

verus! {

/// Every point translated by `t`.
pub open spec fn translate_all(s: Seq<Seq<int>>, t: Seq<int>) -> Seq<Seq<int>> {
    Seq::new(s.len(), |i: int| vadd_spec(s[i], t))
}

/// Every point reflected through the origin.
pub open spec fn negate_all(s: Seq<Seq<int>>) -> Seq<Seq<int>> {
    Seq::new(s.len(), |i: int| vneg_spec(s[i]))
}

/// Law: the distance-sum objective is translation-invariant.  For every
/// candidate point `q` and translation `t`, the objective of the
/// translated set at the translated candidate equals the objective of the
/// original set at `q`; hence the geometric median — the objective's
/// minimizer — moves exactly with the set.
pub proof fn lemma_objective_translation_invariant(
    s: Seq<Seq<int>>,
    q: Seq<int>,
    t: Seq<int>,
    m: int,
)
    requires
        0 <= m <= s.len(),
        q.len() == t.len(),
        forall|i: int| 0 <= i < s.len() ==> (#[trigger] s[i]).len() == q.len(),
    ensures
        qsum_prefix(translate_all(s, t), vadd_spec(q, t), m) == qsum_prefix(s, q, m),
        m == s.len() ==> distsum_spec(translate_all(s, t), vadd_spec(q, t)) == distsum_spec(s, q),
    decreases m,
{
    if m > 0 {
        lemma_objective_translation_invariant(s, q, t, m - 1);
        assert(translate_all(s, t)[m - 1] == vadd_spec(s[m - 1], t));
        lemma_vdist_translate(s[m - 1], q, t);
    }
}

/// Law: the distance-sum objective is invariant under point reflection.
/// Negating every coordinate of every point and of the candidate keeps
/// every distance, hence the objective.
pub proof fn lemma_objective_reflection_invariant(s: Seq<Seq<int>>, q: Seq<int>, m: int)
    requires
        0 <= m <= s.len(),
        forall|i: int| 0 <= i < s.len() ==> (#[trigger] s[i]).len() == q.len(),
    ensures
        qsum_prefix(negate_all(s), vneg_spec(q), m) == qsum_prefix(s, q, m),
        m == s.len() ==> distsum_spec(negate_all(s), vneg_spec(q)) == distsum_spec(s, q),
    decreases m,
{
    if m > 0 {
        lemma_objective_reflection_invariant(s, q, m - 1);
        assert(negate_all(s)[m - 1] == vneg_spec(s[m - 1]));
        let a = s[m - 1];
        assert(vsub_spec(vneg_spec(a), vneg_spec(q)) =~= vneg_spec(vsub_spec(a, q)));
        lemma_dot_prefix_neg(vsub_spec(a, q), vsub_spec(a, q).len() as int);
        assert(vdist_spec(vneg_spec(a), vneg_spec(q)) == vdist_spec(a, q));
    }
}

/// A planar point turned a quarter turn counterclockwise.
pub open spec fn quarter_turn(p: Seq<int>) -> Seq<int> {
    seq![-p[1], p[0]]
}

/// Every planar point turned a quarter turn.
pub open spec fn quarter_turn_all(s: Seq<Seq<int>>) -> Seq<Seq<int>> {
    Seq::new(s.len(), |i: int| quarter_turn(s[i]))
}

/// Law: the distance-sum objective of a planar set is invariant under the
/// quarter-turn rotation — a proper rigid rotation that the integer grid
/// expresses exactly.  The candidate point rotates with the set.
pub proof fn lemma_objective_rotation_invariant(s: Seq<Seq<int>>, q: Seq<int>, m: int)
    requires
        0 <= m <= s.len(),
        q.len() == 2,
        forall|i: int| 0 <= i < s.len() ==> (#[trigger] s[i]).len() == 2,
    ensures
        qsum_prefix(quarter_turn_all(s), quarter_turn(q), m) == qsum_prefix(s, q, m),
        m == s.len() ==> distsum_spec(quarter_turn_all(s), quarter_turn(q)) == distsum_spec(s, q),
    decreases m,
{
    if m > 0 {
        lemma_objective_rotation_invariant(s, q, m - 1);
        let a = s[m - 1];
        assert(quarter_turn_all(s)[m - 1] == quarter_turn(a));
        let dv = vsub_spec(a, q);
        let dw = vsub_spec(quarter_turn(a), quarter_turn(q));
        assert(dw.len() == 2 && dv.len() == 2);
        assert(dw[0] == -(dv[1]) && dw[1] == dv[0]);
        assert(crate::vecops::dot_prefix(dw, dw, 2) == crate::vecops::dot_prefix(dv, dv, 2)) by {
            assert(crate::vecops::dot_prefix(dw, dw, 2) == crate::vecops::dot_prefix(dw, dw, 1)
                + dw[1] * dw[1]);
            assert(crate::vecops::dot_prefix(dw, dw, 1) == crate::vecops::dot_prefix(dw, dw, 0)
                + dw[0] * dw[0]);
            assert(crate::vecops::dot_prefix(dv, dv, 2) == crate::vecops::dot_prefix(dv, dv, 1)
                + dv[1] * dv[1]);
            assert(crate::vecops::dot_prefix(dv, dv, 1) == crate::vecops::dot_prefix(dv, dv, 0)
                + dv[0] * dv[0]);
            assert((-(dv[1])) * (-(dv[1])) == dv[1] * dv[1]) by (nonlinear_arith);
        }
        assert(vdist_spec(quarter_turn(a), quarter_turn(q)) == vdist_spec(a, q));
    }
}

} // verus!
