//! Exponential smoothing over fixed-point coordinates.
//!
//! Coordinates are fixed-point integers in thousandths of a world unit
//! (milli-units). The smoothing factor alpha is a rational `num / den`
//! with `0 < num < den`, so each step blends the previous smoothed value
//! with the new raw value: `s' = s + (num * (x - s)) / den`, rounding the
//! correction toward zero.

use vstd::arithmetic::div_mod::{
    lemma_div_is_ordered, lemma_div_multiples_vanish, lemma_div_pos_is_pos,
};
use vstd::prelude::*;

verus! {

/// Largest magnitude a coordinate may take, in milli-units (one thousand
/// billion world units). Keeps every smoothing step free of overflow.
pub const POS_LIMIT: i64 = 1_000_000_000_000_000;

/// Largest denominator accepted for the smoothing factor.
pub const ALPHA_DEN_MAX: u64 = 1_000;

/// One smoothing step: the previous smoothed value `s` moves toward the
/// raw value `x` by the fraction `num / den` of their distance, the
/// correction rounded toward zero.
pub open spec fn spec_ema(s: int, x: int, num: int, den: int) -> int {
    if x >= s {
        s + (num * (x - s)) / den
    } else {
        s - (num * (s - x)) / den
    }
}

/// Distance from `x`, as a spec-level absolute value.
pub open spec fn dist(a: int, b: int) -> int {
    if a >= b {
        a - b
    } else {
        b - a
    }
}

/// The smoothed value after `k` steps, all fed the same raw value `x`.
pub open spec fn spec_ema_iter(s: int, x: int, num: int, den: int, k: nat) -> int
    decreases k,
{
    if k == 0 {
        s
    } else {
        spec_ema(spec_ema_iter(s, x, num, den, (k - 1) as nat), x, num, den)
    }
}

/// The correction `(num * d) / den` never exceeds the distance `d` and is
/// at least `num` once the distance reaches `den`.
proof fn lemma_scaled_fraction_bounds(d: int, num: int, den: int)
    requires
        0 <= d,
        0 < num < den,
    ensures
        0 <= (num * d) / den <= d,
        d >= den ==> (num * d) / den >= num,
{
    assert(num * d >= 0) by (nonlinear_arith)
        requires
            num > 0,
            d >= 0,
    ;
    lemma_div_pos_is_pos(num * d, den);
    assert(num * d <= den * d) by (nonlinear_arith)
        requires
            num <= den,
            d >= 0,
    ;
    lemma_div_is_ordered(num * d, den * d, den);
    lemma_div_multiples_vanish(d, den);
    if d >= den {
        assert(num * den <= num * d && den * num == num * den) by (nonlinear_arith)
            requires
                den <= d,
                num >= 0,
        ;
        lemma_div_multiples_vanish(num, den);
        lemma_div_is_ordered(num * den, num * d, den);
    }
}

/// One smoothing step lands between the old value and the raw value, never
/// overshooting, and never increases the distance to the raw value. Once
/// the distance is at least `den`, the step strictly decreases it.
pub proof fn lemma_ema_step_toward(s: int, x: int, num: int, den: int)
    requires
        0 < num < den,
    ensures
        s <= x ==> s <= spec_ema(s, x, num, den) <= x,
        x <= s ==> x <= spec_ema(s, x, num, den) <= s,
        dist(x, spec_ema(s, x, num, den)) <= dist(x, s),
        dist(x, s) >= den ==> dist(x, spec_ema(s, x, num, den)) < dist(x, s),
{
    if x >= s {
        lemma_scaled_fraction_bounds(x - s, num, den);
    } else {
        lemma_scaled_fraction_bounds(s - x, num, den);
    }
}

/// Repeated smoothing against one constant raw value `x` moves the value
/// monotonically toward `x`, never overshoots, and after `k` steps the
/// distance to `x` is at most `den - 1` or has shrunk by at least `k`.
pub proof fn lemma_ema_converges(s: int, x: int, num: int, den: int, k: nat)
    requires
        0 < num < den,
    ensures
        s <= x ==> s <= spec_ema_iter(s, x, num, den, k) <= x,
        x <= s ==> x <= spec_ema_iter(s, x, num, den, k) <= s,
        dist(x, spec_ema_iter(s, x, num, den, k)) <= dist(x, s),
        dist(x, spec_ema_iter(s, x, num, den, k)) <= dist(x, s) - k
            || dist(x, spec_ema_iter(s, x, num, den, k)) < den,
    decreases k,
{
    if k > 0 {
        lemma_ema_converges(s, x, num, den, (k - 1) as nat);
        let prev = spec_ema_iter(s, x, num, den, (k - 1) as nat);
        lemma_ema_step_toward(prev, x, num, den);
    }
}

/// Between two consecutive steps, the value moves monotonically: step
/// `k + 1` lies between step `k` and the raw value.
pub proof fn lemma_ema_monotone_step(s: int, x: int, num: int, den: int, k: nat)
    requires
        0 < num < den,
    ensures
        spec_ema_iter(s, x, num, den, k) <= x ==> spec_ema_iter(s, x, num, den, k)
            <= spec_ema_iter(s, x, num, den, k + 1) <= x,
        x <= spec_ema_iter(s, x, num, den, k) ==> x <= spec_ema_iter(s, x, num, den, k + 1)
            <= spec_ema_iter(s, x, num, den, k),
{
    let prev = spec_ema_iter(s, x, num, den, k);
    lemma_ema_step_toward(prev, x, num, den);
    assert(spec_ema_iter(s, x, num, den, k + 1) == spec_ema(prev, x, num, den));
}

/// One executable smoothing step on fixed-point coordinates.
pub fn ema_step(s: i64, x: i64, num: u64, den: u64) -> (r: i64)
    requires
        -POS_LIMIT <= s <= POS_LIMIT,
        -POS_LIMIT <= x <= POS_LIMIT,
        0 < num < den <= ALPHA_DEN_MAX,
    ensures
        r == spec_ema(s as int, x as int, num as int, den as int),
        s <= x ==> s <= r <= x,
        x <= s ==> x <= r <= s,
        -POS_LIMIT <= r <= POS_LIMIT,
{
    proof {
        lemma_ema_step_toward(s as int, x as int, num as int, den as int);
    }
    if x >= s {
        let d: u64 = (x - s) as u64;
        proof {
            lemma_scaled_fraction_bounds(d as int, num as int, den as int);
            assert((num as int) * (d as int) <= 2_000_000_000_000_000_000) by (nonlinear_arith)
                requires
                    num as int <= 1_000,
                    0 <= d as int <= 2_000_000_000_000_000,
            ;
        }
        let q: u64 = (num * d) / den;
        s + (q as i64)
    } else {
        let d: u64 = (s - x) as u64;
        proof {
            lemma_scaled_fraction_bounds(d as int, num as int, den as int);
            assert((num as int) * (d as int) <= 2_000_000_000_000_000_000) by (nonlinear_arith)
                requires
                    num as int <= 1_000,
                    0 <= d as int <= 2_000_000_000_000_000,
            ;
        }
        let q: u64 = (num * d) / den;
        s - (q as i64)
    }
}

} // verus!
