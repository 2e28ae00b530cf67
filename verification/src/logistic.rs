//! The logistic squash that maps raw keyword scores onto `(0, 1)`.
//!
//! Raw lexical scores come on incompatible scales — the indexed tier hands
//! out unbounded negative-is-better ranks, the fallback tier a constant
//! `1.0` — so both are pushed through `1 / (1 + exp(-raw / 10))`, evaluated
//! here in fixed point. The divisor `10` is an empirical spreading knob,
//! not a derived value; it is kept as the named constant
//! [`SQUASH_DIVISOR`].

use vstd::prelude::*;
use vstd::arithmetic::div_mod::{
    lemma_div_is_ordered, lemma_div_multiples_vanish, lemma_div_by_multiple,
};

verus! {

/// The scaling constant of the logistic squash: raw scores are divided by
/// it before exponentiation.
pub const SQUASH_DIVISOR: i64 = 10;

/// Exponent magnitudes (in milli-units) are capped here; beyond the cap the
/// squashed milli-score no longer changes.
pub const SQUASH_ARG_CAP: u64 = 7000;

/// Powers of three, used to bound the fixed-point powers of `e`.
pub open spec fn spec_pow3(q: nat) -> nat
    decreases q,
{
    if q == 0 {
        1
    } else {
        3 * spec_pow3((q - 1) as nat)
    }
}

/// `e^q` in micro-units, by repeated fixed-point multiplication.
pub open spec fn spec_epow(q: nat) -> nat
    decreases q,
{
    if q == 0 {
        1_000_000
    } else {
        spec_epow((q - 1) as nat) * 2_718_282 / 1_000_000
    }
}

proof fn lemma_pow3_le(q: nat)
    requires
        q <= 7,
    ensures
        1 <= spec_pow3(q) <= 2187,
{
    reveal_with_fuel(spec_pow3, 8);
    if q == 0 {
    } else if q == 1 {
    } else if q == 2 {
    } else if q == 3 {
    } else if q == 4 {
    } else if q == 5 {
    } else if q == 6 {
    } else {
        assert(q == 7);
    }
}

proof fn lemma_epow_bounds(q: nat)
    requires
        q <= 7,
    ensures
        1_000_000 <= spec_epow(q),
        spec_epow(q) <= 1_000_000 * spec_pow3(q),
    decreases q,
{
    if q == 0 {
        assert(spec_pow3(0) == 1);
    } else {
        lemma_epow_bounds((q - 1) as nat);
        lemma_pow3_le((q - 1) as nat);
        let w = spec_epow((q - 1) as nat) as int;
        let p = spec_pow3((q - 1) as nat) as int;
        assert(w * 2_718_282 >= 1_000_000 * 2_718_282) by (nonlinear_arith)
            requires
                w >= 1_000_000,
        ;
        lemma_div_is_ordered(1_000_000int * 2_718_282, w * 2_718_282, 1_000_000);
        lemma_div_multiples_vanish(2_718_282, 1_000_000);
        assert(1_000_000 * 2_718_282 / 1_000_000 == 2_718_282);
        assert(w * 2_718_282 <= ((3 * p) * 1_000_000) * 1_000_000) by (nonlinear_arith)
            requires
                w <= 1_000_000 * p,
                1 <= p,
        ;
        lemma_div_is_ordered(w * 2_718_282, ((3 * p) * 1_000_000) * 1_000_000, 1_000_000);
        lemma_div_by_multiple((3 * p) * 1_000_000, 1_000_000);
        assert(spec_pow3(q) == 3 * p);
        assert((3 * p) * 1_000_000 == 1_000_000 * spec_pow3(q)) by (nonlinear_arith)
            requires
                spec_pow3(q) == 3 * p,
        ;
    }
}

/// `e` raised to `x/1000`, in micro-units: the whole part by repeated
/// fixed-point multiplication, the fractional part by a truncated series.
pub open spec fn spec_expm(x: nat) -> nat {
    let q = x / 1000;
    let r = x % 1000;
    let frac = 1_000_000 + 1000 * r + r * r / 2 + r * r * r / 6000 + r * r * r * r
        / 24_000_000;
    spec_epow(q) * frac / 1_000_000
}

/// Fixed-point `e^{x/1000}` in micro-units, for capped arguments.
fn expm(x: u64) -> (e: u64)
    requires
        x <= SQUASH_ARG_CAP,
    ensures
        e == spec_expm(x as nat),
        1_000_000 <= e <= 6_000_000_000,
{
    let q = x / 1000;
    let r = x % 1000;
    let mut w: u64 = 1_000_000;
    let mut j: u64 = 0;
    proof {
        lemma_epow_bounds(0);
        lemma_pow3_le(0);
    }
    while j < q
        invariant
            0 <= j <= q <= 7,
            w == spec_epow(j as nat),
            1_000_000 <= w <= 2_187_000_000,
        decreases q - j,
    {
        proof {
            lemma_epow_bounds(j as nat + 1);
            lemma_pow3_le(j as nat + 1);
            assert(1_000_000 * spec_pow3(j as nat + 1) <= 1_000_000 * 2187)
                by (nonlinear_arith)
                requires
                    spec_pow3(j as nat + 1) <= 2187,
            ;
        }
        w = w * 2_718_282 / 1_000_000;
        j = j + 1;
    }
    proof {
        assert(r < 1000);
        assert(r * r <= 999 * 999) by (nonlinear_arith)
            requires
                0 <= r <= 999,
        ;
        assert(r * r * r <= 999 * 999 * 999) by (nonlinear_arith)
            requires
                0 <= r <= 999,
        ;
        assert(r * r * r * r <= 999 * 999 * 999 * 999) by (nonlinear_arith)
            requires
                0 <= r <= 999,
        ;
        lemma_div_is_ordered(r as int * r as int, 998_001, 2);
        lemma_div_is_ordered(r as int * r as int * r as int, 997_002_999, 6000);
        lemma_div_is_ordered(
            r as int * r as int * r as int * r as int,
            996_005_996_001,
            24_000_000,
        );
    }
    let frac: u64 = 1_000_000 + 1000 * r + r * r / 2 + r * r * r / 6000 + r * r * r * r
        / 24_000_000;
    proof {
        lemma_epow_bounds(q as nat);
        lemma_pow3_le(q as nat);
        assert(1_000_000 * spec_pow3(q as nat) <= 1_000_000 * 2187) by (nonlinear_arith)
            requires
                spec_pow3(q as nat) <= 2187,
        ;
        assert(w * frac <= 2_187_000_000 * 2_706_041) by (nonlinear_arith)
            requires
                w <= 2_187_000_000,
                frac <= 2_706_041,
        ;
        assert(w * frac >= 1_000_000 * 1_000_000) by (nonlinear_arith)
            requires
                w >= 1_000_000,
                frac >= 1_000_000,
        ;
        lemma_div_is_ordered(1_000_000int * 1_000_000, w as int * frac as int, 1_000_000);
        lemma_div_multiples_vanish(1_000_000, 1_000_000);
        lemma_div_is_ordered(w as int * frac as int, 2_187_000_000int * 2_706_041, 1_000_000);
    }
    let e = w * frac / 1_000_000;
    e
}

/// The logistic squash `1 / (1 + exp(-raw / 10))`, from milli-units to
/// milli-units, rounded toward zero.
pub open spec fn spec_squash(raw: int) -> int {
    let mag: int = if raw < 0 {
        -raw
    } else {
        raw
    };
    let am: int = mag / (SQUASH_DIVISOR as int);
    let a: int = if am > SQUASH_ARG_CAP as int {
        SQUASH_ARG_CAP as int
    } else {
        am
    };
    let e: int = spec_expm(a as nat) as int;
    if raw >= 0 {
        1000 * e / (e + 1_000_000)
    } else {
        1_000_000_000int / (1_000_000 + e)
    }
}

/// Squashes a raw score onto `[0, 1000)`: the fixed-point image of the
/// logistic `1 / (1 + exp(-raw / 10))`, monotone saturated at the argument
/// cap. A raw score of zero lands exactly on `500`.
pub fn squash(raw: i64) -> (s: i64)
    ensures
        s == spec_squash(raw as int),
        0 <= s < 1000,
{
    let mag: u64 = if raw < 0 {
        (-(raw as i128)) as u64
    } else {
        raw as u64
    };
    let am: u64 = mag / (SQUASH_DIVISOR as u64);
    let a: u64 = if am > SQUASH_ARG_CAP {
        SQUASH_ARG_CAP
    } else {
        am
    };
    let e = expm(a);
    if raw >= 0 {
        let s = (1000 * e) / (e + 1_000_000);
        proof {
            assert(1000 * (e as int) < (e as int + 1_000_000) * 1000) by (nonlinear_arith)
                requires
                    e >= 1,
            ;
            lemma_div_is_ordered(0, 1000 * e as int, e as int + 1_000_000);
            vstd::arithmetic::div_mod::lemma_multiply_divide_lt(
                1000 * e as int,
                e as int + 1_000_000,
                1000,
            );
        }
        s as i64
    } else {
        let s = 1_000_000_000 / (1_000_000 + e);
        proof {
            assert(1_000_000_000int < (1_000_000 + e as int) * 1000) by (nonlinear_arith)
                requires
                    e >= 1_000_000,
            ;
            lemma_div_is_ordered(0, 1_000_000_000, 1_000_000 + e as int);
            vstd::arithmetic::div_mod::lemma_multiply_divide_lt(
                1_000_000_000,
                1_000_000 + e as int,
                1000,
            );
        }
        s as i64
    }
}

} // verus!
