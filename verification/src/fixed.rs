//! Fixed-point scalar arithmetic: the unit scale, integer square root and
//! floor division, which the rest of the crate builds on.

use vstd::prelude::*;

verus! {

/// Number of fixed-point units in 1.0. Every continuous coordinate and every
/// distance in this crate is an integer count of 1/SCALE.
pub const SCALE: i64 = 65536;

/// Largest value whose square fits in an i64.
pub const ISQRT_MAX: i64 = 3037000499;

/// `r` is the integer square root of `n`.
pub open spec fn is_isqrt(n: int, r: int) -> bool {
    0 <= r && r * r <= n && n < (r + 1) * (r + 1)
}

/// The integer square root as a spec-level function of `n`.
pub closed spec fn spec_isqrt(n: int) -> int {
    choose|r: int| is_isqrt(n, r)
}

/// No two distinct values satisfy `is_isqrt` for the same `n`.
proof fn lemma_isqrt_unique(n: int, a: int, b: int) by (nonlinear_arith)
    requires
        is_isqrt(n, a),
        is_isqrt(n, b),
    ensures
        a == b,
{
}

/// Any witness pins down `spec_isqrt`.
pub proof fn lemma_isqrt_witness(n: int, r: int)
    requires
        is_isqrt(n, r),
    ensures
        spec_isqrt(n) == r,
{
    assert(is_isqrt(n, spec_isqrt(n)));
    lemma_isqrt_unique(n, r, spec_isqrt(n));
}

/// The integer square root exists for every non-negative argument, so
/// `spec_isqrt` denotes it.
pub proof fn lemma_isqrt_exists(n: int)
    requires
        n >= 0,
    ensures
        is_isqrt(n, spec_isqrt(n)),
        0 <= spec_isqrt(n),
        spec_isqrt(n) * spec_isqrt(n) <= n,
    decreases n,
{
    if n == 0 {
        assert(is_isqrt(0, 0));
    } else {
        lemma_isqrt_exists(n - 1);
        let r = spec_isqrt(n - 1);
        assert(is_isqrt(n - 1, r));
        if (r + 1) * (r + 1) <= n {
            assert(is_isqrt(n, r + 1)) by (nonlinear_arith)
                requires
                    is_isqrt(n - 1, r),
                    (r + 1) * (r + 1) <= n,
            ;
            lemma_isqrt_witness(n, r + 1);
        } else {
            assert(is_isqrt(n, r));
            lemma_isqrt_witness(n, r);
        }
    }
}

/// Integer square root: the largest r with r * r <= n.
pub fn isqrt(n: i64) -> (r: i64)
    requires
        n >= 0,
    ensures
        is_isqrt(n as int, r as int),
        r == spec_isqrt(n as int),
        0 <= r <= ISQRT_MAX,
{
    let mut lo: i64 = 0;
    let mut hi: i64 = if n < ISQRT_MAX { n } else { ISQRT_MAX };
    assert((hi + 1) * (hi + 1) > n) by (nonlinear_arith)
        requires
            n >= 0,
            hi == if n < ISQRT_MAX { n as int } else { ISQRT_MAX as int },
            n <= i64::MAX,
    ;
    while lo < hi
        invariant
            0 <= lo <= hi <= ISQRT_MAX,
            lo * lo <= n,
            n < (hi + 1) * (hi + 1),
        decreases hi - lo,
    {
        let mid: i64 = lo + (hi - lo + 1) / 2;
        assert(lo < mid <= hi);
        assert(mid * mid <= ISQRT_MAX * ISQRT_MAX) by (nonlinear_arith)
            requires
                0 <= mid <= ISQRT_MAX,
        ;
        if mid * mid <= n {
            lo = mid;
        } else {
            hi = mid - 1;
        }
    }
    proof {
        lemma_isqrt_witness(n as int, lo as int);
    }
    lo
}

/// Floor division by a positive divisor; agrees with spec-level `/`,
/// which is Euclidean (so floor, for a positive divisor).
pub fn floor_div(a: i64, b: i64) -> (q: i64)
    requires
        0 < b,
        i64::MIN + b <= a,
    ensures
        q == a as int / b as int,
{
    if a >= 0 {
        a / b
    } else {
        let m: i64 = -a;
        let q0: i64 = (m + (b - 1)) / b;
        proof {
            vstd::arithmetic::div_mod::lemma_fundamental_div_mod(m + b - 1, b as int);
            let r0 = (m + b - 1) % (b as int);
            assert(m + b - 1 == b * q0 + r0);
            let r = b - 1 - r0;
            assert(a == (-q0) * (b as int) + r) by (nonlinear_arith)
                requires
                    a == -m,
                    m + b - 1 == b * q0 + r0,
                    r == b - 1 - r0,
            ;
            vstd::arithmetic::div_mod::lemma_fundamental_div_mod_converse_div(
                a as int,
                b as int,
                -q0 as int,
                r,
            );
        }
        -q0
    }
}

} // verus!
