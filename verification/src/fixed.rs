//! Fixed-point scale, shared arithmetic lemmas, and an integer square root.
//!
//! A real value `v` in `[0, 1]` is represented by the integer `v * SCALE`,
//! so `SCALE` itself stands for `1.0`.

use vstd::prelude::*;
use vstd::arithmetic::div_mod::{
    lemma_div_is_ordered, lemma_div_multiples_vanish, lemma_div_pos_is_pos,
};
use vstd::arithmetic::mul::{lemma_mul_inequality, lemma_mul_nonnegative};

verus! {

/// The fixed-point representation of `1.0`.
pub const SCALE: i64 = 65536;

/// Largest argument `isqrt` accepts; `(2^31)^2`, comfortably above any
/// squared distance the library forms (`dim * SCALE * SCALE`).
pub const ISQRT_MAX: i64 = 0x4000_0000_0000_0000;

/// `a * b / m` scales `a` by the fraction `b / m`; for `0 <= b <= m` the
/// result stays within `[0, a]`.
pub proof fn lemma_scaled_frac(a: int, b: int, m: int)
    requires
        0 <= a,
        0 <= b <= m,
        0 < m,
    ensures
        0 <= a * b / m <= a,
{
    lemma_mul_nonnegative(a, b);
    lemma_div_pos_is_pos(a * b, m);
    lemma_mul_inequality(b, m, a);
    assert(b * a <= m * a);
    assert(a * b == b * a);
    assert(m * a == a * m);
    lemma_div_is_ordered(a * b, m * a, m);
    lemma_div_multiples_vanish(a, m);
    assert((m * a) / m == a);
}

/// The floor of the square root of `n`, defined by counting up: the largest
/// `r` with `r * r <= n`.
pub open spec fn sqrt_floor(n: int) -> int
    decreases n,
{
    if n <= 0 {
        0
    } else {
        let p = sqrt_floor(n - 1);
        if (p + 1) * (p + 1) <= n {
            p + 1
        } else {
            p
        }
    }
}

/// `sqrt_floor(n)` squared never exceeds `n`, and the next square is above it.
pub proof fn lemma_sqrt_floor_props(n: int)
    requires
        0 <= n,
    ensures
        0 <= sqrt_floor(n),
        sqrt_floor(n) * sqrt_floor(n) <= n,
        n < (sqrt_floor(n) + 1) * (sqrt_floor(n) + 1),
    decreases n,
{
    if n == 0 {
    } else {
        lemma_sqrt_floor_props(n - 1);
        let p = sqrt_floor(n - 1);
        if (p + 1) * (p + 1) <= n {
            assert(n < (p + 2) * (p + 2)) by (nonlinear_arith)
                requires
                    0 <= p,
                    n - 1 < (p + 1) * (p + 1),
            ;
        }
    }
}

/// Any `r` bracketed by the two squares is the floor square root.
pub proof fn lemma_sqrt_floor_unique(n: int, r: int)
    requires
        0 <= n,
        0 <= r,
        r * r <= n,
        n < (r + 1) * (r + 1),
    ensures
        r == sqrt_floor(n),
{
    lemma_sqrt_floor_props(n);
    let s = sqrt_floor(n);
    assert(r == s) by (nonlinear_arith)
        requires
            0 <= r,
            0 <= s,
            r * r <= n,
            n < (r + 1) * (r + 1),
            s * s <= n,
            n < (s + 1) * (s + 1),
    ;
}

/// Integer square root by bisection: returns the floor of the square root.
pub fn isqrt(n: i64) -> (r: i64)
    requires
        0 <= n < ISQRT_MAX,
    ensures
        r == sqrt_floor(n as int),
        0 <= r,
        r * r <= n,
        n < (r + 1) * (r + 1),
{
    let mut lo: i64 = 0;
    let mut hi: i64 = 0x8000_0000;
    assert(hi * hi == 0x4000_0000_0000_0000);
    while hi - lo > 1
        invariant
            0 <= lo < hi <= 0x8000_0000,
            lo * lo <= n,
            n < hi * hi,
        decreases hi - lo,
    {
        let mid: i64 = lo + (hi - lo) / 2;
        assert(lo < mid < hi);
        assert(mid * mid <= 0x8000_0000i64 * 0x8000_0000i64) by (nonlinear_arith)
            requires
                0 <= mid <= 0x8000_0000i64,
        ;
        if mid * mid <= n {
            lo = mid;
        } else {
            hi = mid;
        }
    }
    proof {
        lemma_sqrt_floor_unique(n as int, lo as int);
    }
    lo
}

} // verus!
