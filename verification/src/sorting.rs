//! The two order primitives the library takes from the `indxvec` crate:
//! an immutable merge sort and a one-pass minimum/maximum scan.

use vstd::prelude::*;

verus! {

/// Relies on `indxvec::Vecops::sortm`: returns the same values (as a
/// multiset) in ascending order, or in descending order when the flag
/// is false.
#[verifier::external_body]
pub(crate) fn sort_by_flag(v: &Vec<i64>, ascending: bool) -> (r: Vec<i64>)
    ensures
        r@.len() == v@.len(),
        r@.to_multiset() == v@.to_multiset(),
        ascending ==> forall|i: int, j: int|
            0 <= i <= j < r@.len() ==> #[trigger] r@[i] <= #[trigger] r@[j],
        !ascending ==> forall|i: int, j: int|
            0 <= i <= j < r@.len() ==> #[trigger] r@[i] >= #[trigger] r@[j],
{
    indxvec::Vecops::sortm(&v[..], ascending)
}

/// Relies on `indxvec::Vecops::minmax`: the minimum value with its first
/// index and the maximum value with its first index (both comparisons in
/// its scan are strict, so earlier equal values keep their index).
#[verifier::external_body]
pub(crate) fn minmax_i64(v: &Vec<i64>) -> (r: (i64, usize, i64, usize))
    requires
        v@.len() >= 1,
    ensures
        r.1 < v@.len(),
        r.3 < v@.len(),
        v@[r.1 as int] == r.0,
        v@[r.3 as int] == r.2,
        forall|i: int| 0 <= i < v@.len() ==> r.0 <= #[trigger] v@[i] && v@[i] <= r.2,
        forall|i: int| 0 <= i < r.1 as int ==> #[trigger] v@[i] > r.0,
        forall|i: int| 0 <= i < r.3 as int ==> #[trigger] v@[i] < r.2,
{
    let mm = indxvec::Vecops::minmax(&v[..]);
    (mm.min, mm.minindex, mm.max, mm.maxindex)
}

} // verus!
