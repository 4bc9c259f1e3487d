//! Integer square roots, the arithmetic core of the fixed-point model.

use vstd::prelude::*;

verus! {

/// Floor of the square root of `x`: the largest `r` with `r * r <= x`.
///
/// Defined by counting up: the floor square root grows by one exactly when
/// `x` reaches the next perfect square.
pub open spec fn sqrt_floor(x: nat) -> nat
    decreases x,
{
    if x == 0 {
        0
    } else {
        let r = sqrt_floor((x - 1) as nat);
        if (r + 1) * (r + 1) <= x {
            (r + 1) as nat
        } else {
            r
        }
    }
}

/// `sqrt_floor(x)` is bracketed by the two neighbouring perfect squares.
pub proof fn lemma_sqrt_floor_bounds(x: nat)
    ensures
        sqrt_floor(x) * sqrt_floor(x) <= x,
        x < (sqrt_floor(x) + 1) * (sqrt_floor(x) + 1),
    decreases x,
{
    reveal_with_fuel(sqrt_floor, 2);
    if x == 0 {
        assert(sqrt_floor(0) == 0);
        assert((sqrt_floor(0) + 1) * (sqrt_floor(0) + 1) == 1) by (nonlinear_arith)
            requires sqrt_floor(0) == 0;
    } else {
        let r = sqrt_floor((x - 1) as nat);
        lemma_sqrt_floor_bounds((x - 1) as nat);
        if (r + 1) * (r + 1) <= x {
            assert(sqrt_floor(x) == r + 1);
            assert(x <= (r + 1) * (r + 1));
            assert((r + 1) * (r + 1) < (r + 2) * (r + 2)) by (nonlinear_arith);
            assert(sqrt_floor(x) + 1 == r + 2);
            assert(x < (sqrt_floor(x) + 1) * (sqrt_floor(x) + 1));
        } else {
            assert(sqrt_floor(x) == r);
        }
    }
}

/// Any `r` bracketed by the neighbouring perfect squares of `x` is `sqrt_floor(x)`.
pub proof fn lemma_sqrt_floor_unique(x: nat, r: nat)
    requires
        r * r <= x,
        x < (r + 1) * (r + 1),
    ensures
        r == sqrt_floor(x),
{
    let s = sqrt_floor(x);
    lemma_sqrt_floor_bounds(x);
    if r < s {
        assert((r + 1) * (r + 1) <= s * s) by (nonlinear_arith)
            requires r + 1 <= s;
        assert(false);
    }
    if s < r {
        assert((s + 1) * (s + 1) <= r * r) by (nonlinear_arith)
            requires s + 1 <= r;
        assert(false);
    }
}

/// An upper bound on `x` gives an upper bound on its floor square root.
pub proof fn lemma_sqrt_upper(x: nat, k: nat)
    requires
        x < (k + 1) * (k + 1),
    ensures
        sqrt_floor(x) <= k,
{
    lemma_sqrt_floor_bounds(x);
    if k < sqrt_floor(x) {
        assert((k + 1) * (k + 1) <= sqrt_floor(x) * sqrt_floor(x)) by (nonlinear_arith)
            requires k + 1 <= sqrt_floor(x);
        assert(false);
    }
}

/// A lower bound on `x` gives a lower bound on its floor square root.
pub proof fn lemma_sqrt_lower(x: nat, k: nat)
    requires
        k * k <= x,
    ensures
        k <= sqrt_floor(x),
{
    lemma_sqrt_floor_bounds(x);
    if sqrt_floor(x) < k {
        assert((sqrt_floor(x) + 1) * (sqrt_floor(x) + 1) <= k * k) by (nonlinear_arith)
            requires sqrt_floor(x) + 1 <= k;
        assert(false);
    }
}

/// Executable floor square root by binary search on the result.
pub fn isqrt(x: u128) -> (r: u128)
    ensures
        r == sqrt_floor(x as nat),
        r <= 0xFFFF_FFFF_FFFF_FFFFu128,
{
    let mut lo: u128 = 0;
    let mut hi: u128 = 0x1_0000_0000_0000_0000;
    assert((x as int) < 0x1_0000_0000_0000_0000int * 0x1_0000_0000_0000_0000int);
    while lo + 1 < hi
        invariant
            lo < hi,
            hi <= 0x1_0000_0000_0000_0000u128,
            (lo as int) * (lo as int) <= x as int,
            (x as int) < (hi as int) * (hi as int),
        decreases hi - lo,
    {
        let mid = lo + (hi - lo) / 2;
        assert((mid as int) * (mid as int) <= 0xFFFF_FFFF_FFFF_FFFFint * 0xFFFF_FFFF_FFFF_FFFFint)
            by (nonlinear_arith)
            requires mid <= 0xFFFF_FFFF_FFFF_FFFFu128;
        let sq = mid * mid;
        if sq <= x {
            lo = mid;
        } else {
            hi = mid;
        }
    }
    proof {
        lemma_sqrt_floor_unique(x as nat, lo as nat);
    }
    lo
}

} // verus!
