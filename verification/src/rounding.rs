//! Deterministic integer rounding used by the allocation passes.
//!
//! Desired trade amounts are snapped to whole lots of an instrument's price
//! and weight-proportional shares are rounded to whole currency units.  The
//! engine rounds half away from zero everywhere, so results are reproducible.

use vstd::prelude::*;

verus! {

/// `n / d` rounded to the nearest integer, halves away from zero.
pub open spec fn round_div(n: int, d: int) -> int
    recommends
        d > 0,
{
    if n >= 0 {
        (n + d / 2) / d
    } else {
        -((-n + d / 2) / d)
    }
}

/// `n / d` rounded up, for non-negative `n`.
pub open spec fn ceil_div(n: int, d: int) -> int
    recommends
        n >= 0,
        d > 0,
{
    (n + d - 1) / d
}

/// The nearest-integer quotient stays within one of the exact quotient:
/// `round_div(n, d) * d` differs from `n` by less than `d`, and the result
/// never exceeds the magnitude of `n` or flips its sign.
pub proof fn lemma_round_div_bounds(n: int, d: int)
    requires
        d > 0,
    ensures
        n - d < round_div(n, d) * d < n + d,
        n >= 0 ==> 0 <= round_div(n, d) <= n,
        n < 0 ==> n <= round_div(n, d) <= 0,
        n == 0 ==> round_div(n, d) == 0,
{
    if n >= 0 {
        lemma_round_div_bounds_nonneg(n, d);
    } else {
        lemma_round_div_bounds_nonneg(-n, d);
        assert(round_div(n, d) == -round_div(-n, d));
        assert((-round_div(-n, d)) * d == -(round_div(-n, d) * d)) by (nonlinear_arith);
    }
}

proof fn lemma_round_div_bounds_nonneg(n: int, d: int)
    requires
        n >= 0,
        d > 0,
    ensures
        n - d < round_div(n, d) * d < n + d,
        0 <= round_div(n, d) <= n,
{
    let h = d / 2;
    let q = (n + h) / d;
    assert(0 <= h < d);
    assert(q * d <= n + h && n + h - d < q * d) by (nonlinear_arith)
        requires d > 0 && h >= 0 && n >= 0 && q == (n + h) / d;
    if n == 0 {
        assert(q == h / d);
        assert(q == 0) by (nonlinear_arith)
            requires 0 <= h < d && q == h / d;
    } else {
        assert(q >= 0) by (nonlinear_arith)
            requires d > 0 && n + h >= 0 && q == (n + h) / d;
        // q <= n: since q * d <= n + h < n + d <= n * d + d when d >= 1,
        // so q * d < (n + 1) * d, hence q < n + 1.
        assert(q <= n) by (nonlinear_arith)
            requires n >= 1 && d >= 1 && q * d < n + d;
    }
}

/// The round-up quotient covers `n` and overshoots by less than `d`.
pub proof fn lemma_ceil_div_bounds(n: int, d: int)
    requires
        n >= 0,
        d > 0,
    ensures
        n <= ceil_div(n, d) * d < n + d,
        0 <= ceil_div(n, d),
        n > 0 ==> ceil_div(n, d) >= 1,
{
    let q = (n + d - 1) / d;
    assert(q * d <= n + d - 1 && n - 1 < q * d && q >= 0) by (nonlinear_arith)
        requires d > 0 && n >= 0 && q == (n + d - 1) / d;
    if n > 0 {
        assert(q >= 1) by (nonlinear_arith)
            requires d > 0 && q * d > n - 1 && n >= 1 && q >= 0;
    }
}

/// Executable form of [`round_div`].
pub fn round_div_i128(n: i128, d: i128) -> (r: i128)
    requires
        0 < d,
        -0x4000_0000_0000_0000_0000_0000_0000_0000 < n < 0x4000_0000_0000_0000_0000_0000_0000_0000,
        d < 0x4000_0000_0000_0000_0000_0000_0000_0000,
    ensures
        r == round_div(n as int, d as int),
{
    if n >= 0 {
        (n + d / 2) / d
    } else {
        let q = (-n + d / 2) / d;
        -q
    }
}

/// Executable form of [`ceil_div`].
pub fn ceil_div_i128(n: i128, d: i128) -> (r: i128)
    requires
        0 <= n < 0x4000_0000_0000_0000_0000_0000_0000_0000,
        0 < d < 0x4000_0000_0000_0000_0000_0000_0000_0000,
    ensures
        r == ceil_div(n as int, d as int),
{
    (n + d - 1) / d
}

} // verus!
