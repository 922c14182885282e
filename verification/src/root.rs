//! Integer square roots.

use vstd::prelude::*;

verus! {

/// `s` is the integer square root of `n`: the largest integer whose
/// square does not exceed `n`.
pub open spec fn is_isqrt(n: int, s: int) -> bool {
    0 <= s && s * s <= n < (s + 1) * (s + 1)
}

/// The integer square root of a non-negative `n`.
pub open spec fn isqrt(n: int) -> int {
    choose|s: int| is_isqrt(n, s)
}

/// Squaring is monotone on the non-negative integers.
pub proof fn lemma_square_monotone(a: int, b: int)
    requires
        0 <= a <= b,
    ensures
        a * a <= b * b,
{
    assert(a * a <= b * b) by (nonlinear_arith)
        requires
            0 <= a <= b,
    ;
}

/// Squaring is strictly monotone on the non-negative integers.
pub proof fn lemma_square_strict(a: int, b: int)
    requires
        0 <= a < b,
    ensures
        a * a < b * b,
{
    assert(a * a < b * b) by (nonlinear_arith)
        requires
            0 <= a < b,
    ;
}

/// At most one integer is the integer square root of `n`.
pub proof fn lemma_isqrt_unique(n: int, s: int, t: int)
    requires
        is_isqrt(n, s),
        is_isqrt(n, t),
    ensures
        s == t,
{
    if s < t {
        lemma_square_monotone(s + 1, t);
    } else if t < s {
        lemma_square_monotone(t + 1, s);
    }
}

/// Every non-negative integer has an integer square root.
pub proof fn lemma_isqrt_exists(n: int)
    requires
        0 <= n,
    ensures
        is_isqrt(n, isqrt(n)),
    decreases n,
{
    if n == 0 {
        assert(is_isqrt(0, 0));
    } else {
        lemma_isqrt_exists(n - 1);
        let s = isqrt(n - 1);
        if n < (s + 1) * (s + 1) {
            assert(is_isqrt(n, s));
        } else {
            assert((s + 2) * (s + 2) == (s + 1) * (s + 1) + 2 * s + 3) by (nonlinear_arith);
            assert(is_isqrt(n, s + 1));
        }
    }
}

/// Whatever satisfies the defining bounds is the integer square root.
pub proof fn lemma_isqrt_is(n: int, s: int)
    requires
        is_isqrt(n, s),
    ensures
        isqrt(n) == s,
{
    lemma_isqrt_exists(n);
    lemma_isqrt_unique(n, s, isqrt(n));
}

/// For non-negative `a`, `a <= isqrt(n)` exactly when `a * a <= n`.
pub proof fn lemma_isqrt_bounds(n: int, a: int)
    requires
        0 <= n,
        0 <= a,
    ensures
        a <= isqrt(n) <==> a * a <= n,
{
    lemma_isqrt_exists(n);
    let s = isqrt(n);
    if a <= s {
        lemma_square_monotone(a, s);
    } else {
        lemma_square_monotone(s + 1, a);
    }
}

/// Computes the integer square root by bisection.
pub fn isqrt_u128(n: u128) -> (s: u64)
    ensures
        is_isqrt(n as int, s as int),
        s == isqrt(n as int),
{
    let mut lo: u128 = 0;
    let mut hi: u128 = 0x1_0000_0000_0000_0000;
    assert(n < hi * hi) by (nonlinear_arith)
        requires
            n <= u128::MAX,
            hi == 0x1_0000_0000_0000_0000,
    ;
    while hi - lo > 1
        invariant
            lo < hi <= 0x1_0000_0000_0000_0000,
            lo * lo <= n < hi * hi,
        decreases hi - lo,
    {
        let mid: u128 = lo + (hi - lo) / 2;
        assert(mid * mid <= u128::MAX) by (nonlinear_arith)
            requires
                0 <= mid < 0x1_0000_0000_0000_0000,
        ;
        if mid * mid <= n {
            lo = mid;
        } else {
            hi = mid;
        }
    }
    proof {
        lemma_isqrt_is(n as int, lo as int);
    }
    lo as u64
}

} // verus!
