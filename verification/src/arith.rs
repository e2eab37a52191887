//! Integer square root and truncating division, the two arithmetic
//! primitives under every distance computation in the library.

use vstd::prelude::*;
use vstd::arithmetic::mul::*;
use vstd::arithmetic::div_mod::*;

verus! {

/// Floor of the square root: the unique `r >= 0` with `r*r <= x < (r+1)*(r+1)`.
pub open spec fn sqrt_floor(x: int) -> int {
    choose|r: int| r >= 0 && #[trigger] (r * r) <= x && x < (r + 1) * (r + 1)
}

/// Division rounding toward zero, as Rust's `/` computes on signed integers
/// (spec-level `/` rounds toward negative infinity instead).
pub open spec fn div_trunc(a: int, b: int) -> int {
    if a >= 0 {
        a / b
    } else {
        -((-a) / b)
    }
}

/// Squaring is monotone on nonnegative integers.
pub proof fn lemma_sq_monotone(a: int, b: int)
    requires
        0 <= a <= b,
    ensures
        a * a <= b * b,
{
    lemma_mul_inequality(a, b, a);
    lemma_mul_inequality(a, b, b);
    lemma_mul_is_commutative(a, b);
}

/// Every nonnegative integer has an integer square root.
pub proof fn lemma_sqrt_floor_exists(x: int) -> (r: int)
    requires
        0 <= x,
    ensures
        0 <= r,
        r * r <= x,
        x < (r + 1) * (r + 1),
    decreases x,
{
    if x == 0 {
        0
    } else {
        let p = lemma_sqrt_floor_exists(x - 1);
        if x == (p + 1) * (p + 1) {
            assert((p + 1) * (p + 1) < (p + 2) * (p + 2)) by (nonlinear_arith)
                requires
                    p >= 0,
            ;
            p + 1
        } else {
            p
        }
    }
}

/// `sqrt_floor` satisfies its defining property for every nonnegative argument.
pub proof fn lemma_sqrt_floor_bounds(x: int)
    requires
        0 <= x,
    ensures
        0 <= sqrt_floor(x),
        sqrt_floor(x) * sqrt_floor(x) <= x,
        x < (sqrt_floor(x) + 1) * (sqrt_floor(x) + 1),
{
    let w = lemma_sqrt_floor_exists(x);
    assert(w >= 0 && w * w <= x && x < (w + 1) * (w + 1));
}

/// The integer square root is unique.
pub proof fn lemma_sqrt_floor_unique(x: int, r: int)
    requires
        0 <= r,
        r * r <= x,
        x < (r + 1) * (r + 1),
    ensures
        r == sqrt_floor(x),
{
    lemma_sqrt_floor_bounds(x);
    let s = sqrt_floor(x);
    if r < s {
        lemma_sq_monotone(r + 1, s);
        assert(false);
    }
    if s < r {
        lemma_sq_monotone(s + 1, r);
        assert(false);
    }
}

/// Any nonnegative `a` with `a*a <= x` is at most `sqrt_floor(x)`.
pub proof fn lemma_sqrt_floor_lower(x: int, a: int)
    requires
        0 <= a,
        a * a <= x,
    ensures
        a <= sqrt_floor(x),
{
    lemma_sqrt_floor_bounds(x);
    let s = sqrt_floor(x);
    if s < a {
        lemma_sq_monotone(s + 1, a);
        assert(false);
    }
}

/// If `x < b*b` then `sqrt_floor(x) < b`.
pub proof fn lemma_sqrt_floor_upper(x: int, b: int)
    requires
        0 <= x,
        0 <= b,
        x < b * b,
    ensures
        sqrt_floor(x) < b,
{
    lemma_sqrt_floor_bounds(x);
    let s = sqrt_floor(x);
    if b <= s {
        lemma_sq_monotone(b, s);
        assert(false);
    }
}

/// Integer square root, exact floor, by binary search.
pub fn isqrt(x: u128) -> (r: u128)
    requires
        x < 0x40000000000000000000000000000000u128,
    ensures
        r == sqrt_floor(x as int),
        r * r <= x,
        (x as int) < (r + 1) * (r + 1),
{
    let mut lo: u128 = 0;
    let mut hi: u128 = 0x8000000000000000;
    assert((0x8000000000000000u128 as int) * (0x8000000000000000u128 as int)
        == 0x40000000000000000000000000000000int);
    while lo + 1 < hi
        invariant
            lo < hi,
            hi <= 0x8000000000000000u128,
            (lo as int) * (lo as int) <= x as int,
            (x as int) < (hi as int) * (hi as int),
        decreases hi - lo,
    {
        let mid = lo + (hi - lo) / 2;
        proof {
            lemma_sq_monotone(mid as int, 0x7fffffffffffffffint);
        }
        let sq = mid * mid;
        if sq <= x {
            lo = mid;
        } else {
            hi = mid;
        }
    }
    proof {
        lemma_sqrt_floor_unique(x as int, lo as int);
    }
    lo
}

/// Truncating signed division, computed through unsigned division so that
/// its result is pinned to `div_trunc`.
pub fn div_i128(a: i128, b: i128) -> (q: i128)
    requires
        b > 0,
        a > i128::MIN,
    ensures
        q == div_trunc(a as int, b as int),
{
    if a >= 0 {
        let q = (a as u128) / (b as u128);
        proof {
            lemma_div_nonincreasing(a as int, b as int);
            lemma_div_pos_is_pos(a as int, b as int);
        }
        q as i128
    } else {
        let m = ((-a) as u128) / (b as u128);
        proof {
            lemma_div_nonincreasing((-a) as int, b as int);
            lemma_div_pos_is_pos((-a) as int, b as int);
        }
        -(m as i128)
    }
}

/// Truncating division never enlarges a bound on the numerator:
/// if `|a| <= c*b` then `|div_trunc(a, b)| <= c`.
pub proof fn lemma_div_trunc_bound(a: int, b: int, c: int)
    requires
        b > 0,
        c >= 0,
        -(c * b) <= a <= c * b,
    ensures
        -c <= div_trunc(a, b) <= c,
{
    lemma_mul_is_commutative(c, b);
    lemma_div_multiples_vanish(c, b);
    if a >= 0 {
        lemma_div_is_ordered(a, b * c, b);
        lemma_div_pos_is_pos(a, b);
    } else {
        lemma_div_is_ordered(-a, b * c, b);
        lemma_div_pos_is_pos(-a, b);
    }
}

/// Truncating division commutes with negation of the numerator.
pub proof fn lemma_div_trunc_neg(a: int, b: int)
    requires
        b > 0,
    ensures
        div_trunc(-a, b) == -div_trunc(a, b),
{
    if a == 0 {
        lemma_div_of0(b);
    }
}

} // verus!
