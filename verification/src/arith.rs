//! Integer square root, the nonlinear workhorse behind cosine similarity.

use vstd::prelude::*;

verus! {

/// The floor of the square root of `n`.
pub open spec fn spec_isqrt(n: nat) -> nat
    decreases n,
{
    if n == 0 {
        0
    } else {
        let r = spec_isqrt((n - 1) as nat);
        if (r + 1) * (r + 1) <= n {
            r + 1
        } else {
            r
        }
    }
}

/// `spec_isqrt(n)` really is the floor of the square root:
/// its square is at most `n`, and the next square is beyond `n`.
pub proof fn lemma_isqrt_bounds(n: nat)
    ensures
        spec_isqrt(n) * spec_isqrt(n) <= n,
        n < (spec_isqrt(n) + 1) * (spec_isqrt(n) + 1),
    decreases n,
{
    if n == 0 {
        assert(spec_isqrt(n) == 0);
        assert(n < (spec_isqrt(n) + 1) * (spec_isqrt(n) + 1)) by (nonlinear_arith)
            requires
                n == 0,
                spec_isqrt(n) == 0,
        ;
    } else {
        lemma_isqrt_bounds((n - 1) as nat);
        let r = spec_isqrt((n - 1) as nat);
        assert(r * r <= n - 1);
        assert(n - 1 < (r + 1) * (r + 1));
        if (r + 1) * (r + 1) <= n {
            assert(spec_isqrt(n) == r + 1);
            assert(n == (r + 1) * (r + 1));
            assert((r + 1) * (r + 1) < (r + 2) * (r + 2)) by (nonlinear_arith);
            assert(n < (r + 2) * (r + 2));
            assert(spec_isqrt(n) + 1 == r + 2);
            assert((spec_isqrt(n) + 1) * (spec_isqrt(n) + 1) == (r + 2) * (r + 2))
                by (nonlinear_arith)
                requires
                    spec_isqrt(n) + 1 == r + 2,
            ;
        } else {
            assert(spec_isqrt(n) == r);
            assert(n < (r + 1) * (r + 1));
            assert((spec_isqrt(n) + 1) * (spec_isqrt(n) + 1) == (r + 1) * (r + 1))
                by (nonlinear_arith)
                requires
                    spec_isqrt(n) + 1 == r + 1,
            ;
        }
    }
}

/// There is only one natural number whose square brackets `n`,
/// so anything that satisfies the bracketing is `spec_isqrt(n)`.
pub proof fn lemma_isqrt_unique(n: nat, r: nat)
    requires
        r * r <= n,
        n < (r + 1) * (r + 1),
    ensures
        r == spec_isqrt(n),
{
    lemma_isqrt_bounds(n);
    let s = spec_isqrt(n);
    if r < s {
        assert((r + 1) * (r + 1) <= s * s) by (nonlinear_arith)
            requires
                r + 1 <= s,
        ;
    } else if s < r {
        assert((s + 1) * (s + 1) <= r * r) by (nonlinear_arith)
            requires
                s + 1 <= r,
        ;
    }
}

/// A positive number has a positive square root floor.
pub proof fn lemma_isqrt_pos(n: nat)
    requires
        n >= 1,
    ensures
        spec_isqrt(n) >= 1,
{
    lemma_isqrt_bounds(n);
    let s = spec_isqrt(n);
    if s == 0 {
        assert((s + 1) * (s + 1) == 1);
        assert(false);
    }
}

/// Binary search for the floor of the square root of `n`.
pub fn isqrt_u128(n: u128) -> (r: u128)
    requires
        n < 0x4000_0000_0000_0000_0000_0000_0000_0000u128,
    ensures
        r == spec_isqrt(n as nat),
        r * r <= n < (r + 1) * (r + 1),
{
    let mut lo: u128 = 0;
    let mut hi: u128 = 0x8000_0000_0000_0000u128;
    assert(0x8000_0000_0000_0000u128 * 0x8000_0000_0000_0000u128
        == 0x4000_0000_0000_0000_0000_0000_0000_0000u128) by (nonlinear_arith);
    while lo + 1 < hi
        invariant
            lo < hi <= 0x8000_0000_0000_0000u128,
            lo * lo <= n,
            n < hi * hi,
        decreases hi - lo,
    {
        let mid = lo + (hi - lo) / 2;
        assert(lo < mid < hi);
        proof {
            assert(mid * mid <= 0x8000_0000_0000_0000u128 * 0x8000_0000_0000_0000u128)
                by (nonlinear_arith)
                requires
                    0 <= mid <= 0x8000_0000_0000_0000u128,
            ;
        }
        if mid * mid <= n {
            lo = mid;
        } else {
            hi = mid;
        }
    }
    proof {
        lemma_isqrt_unique(n as nat, lo as nat);
    }
    lo
}

} // verus!
