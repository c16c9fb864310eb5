//! Generic utilities: trend classification, compound annual growth rate,
//! percentage change and volume-spike detection.

use vstd::prelude::*;
use vstd::string::StringExecFns;
use vstd::arithmetic::div_mod::{
    lemma_div_by_self, lemma_div_decreases, lemma_div_is_ordered, lemma_div_multiples_vanish,
    lemma_div_of0, lemma_div_pos_is_pos,
};
use vstd::arithmetic::mul::{
    lemma_mul_by_zero_is_zero, lemma_mul_left_inequality, lemma_mul_nonnegative,
};
use crate::fixnum::{div_floor, in_range, lemma_div_bound, seq_sum, sum_range, MAX_RAW, SCALE};
use crate::risk::int_max;

verus! {

/// Magnitude of an integer.
pub open spec fn abs_int(a: int) -> int {
    if a < 0 {
        -a
    } else {
        a
    }
}

/// Trend classification of a series. The series is split at its midpoint
/// (the second half one longer for odd lengths), each half is averaged, and
/// the change of the second average against the first, relative to the
/// larger of the first average's magnitude and 1.0, is compared against a
/// five percent threshold either way. Fewer than two points are "stable".
pub open spec fn trend_label(s: Seq<i128>) -> Seq<char> {
    if s.len() < 2 {
        "stable"@
    } else {
        let h = s.len() as int / 2;
        let a1 = seq_sum(s.subrange(0, h)) / h;
        let a2 = seq_sum(s.subrange(h, s.len() as int)) / (s.len() - h);
        let dn = int_max(abs_int(a1), SCALE as int);
        if 20 * (a2 - a1) > dn {
            "increasing"@
        } else if 20 * (a2 - a1) < -dn {
            "decreasing"@
        } else {
            "stable"@
        }
    }
}

/// Classify the series as "increasing", "decreasing" or "stable".
pub fn detect_trend(values: &Vec<i128>) -> (r: String)
    requires
        in_range(values@),
    ensures
        r@ == trend_label(values@),
{
    let n: usize = values.len();
    if n < 2 {
        return String::from_str("stable");
    }
    let h: usize = n / 2;
    proof {
        lemma_div_is_ordered(2, n as int, 2);
        lemma_div_by_self(2);
        lemma_div_decreases(n as int, 2);
    }
    let s1: i128 = sum_range(values, 0, h);
    let s2: i128 = sum_range(values, h, n);
    proof {
        lemma_div_bound(s1 as int, h as int, MAX_RAW as int);
        lemma_div_bound(s2 as int, (n - h) as int, MAX_RAW as int);
    }
    let a1: i128 = div_floor(s1, h as i128);
    let a2: i128 = div_floor(s2, (n - h) as i128);
    let ab: i128 = if a1 < 0 {
        -a1
    } else {
        a1
    };
    let dn: i128 = if ab > SCALE {
        ab
    } else {
        SCALE
    };
    let d20: i128 = 20 * (a2 - a1);
    if d20 > dn {
        String::from_str("increasing")
    } else if d20 < -dn {
        String::from_str("decreasing")
    } else {
        String::from_str("stable")
    }
}

/// Cap for the fixed-point compounding recursion, above every growth target
/// the representable arguments can produce.
pub const POW_CAP: i128 = 2_000_000_000_000_000_000;

/// Fixed-point compounding: multiply by `x / SCALE` a total of `k` times,
/// flooring at each step and saturating at `POW_CAP`.
pub open spec fn powfix(x: int, k: nat) -> int
    decreases k,
{
    if k == 0 {
        SCALE as int
    } else {
        let q = x * powfix(x, (k - 1) as nat) / SCALE as int;
        if q > POW_CAP {
            POW_CAP as int
        } else {
            q
        }
    }
}

/// Compounding zero collapses to zero after the first step.
proof fn lemma_powfix_zero(k: nat)
    requires
        1 <= k,
    ensures
        powfix(0, k) == 0,
{
    lemma_mul_by_zero_is_zero(powfix(0, (k - 1) as nat));
    lemma_div_of0(SCALE as int);
}

/// Compounding a nonnegative factor stays within `[0, POW_CAP]`.
proof fn lemma_powfix_nonneg(x: int, k: nat)
    requires
        0 <= x,
    ensures
        0 <= powfix(x, k) <= POW_CAP,
    decreases k,
{
    if k > 0 {
        lemma_powfix_nonneg(x, (k - 1) as nat);
        lemma_mul_nonnegative(x, powfix(x, (k - 1) as nat));
        lemma_div_pos_is_pos(x * powfix(x, (k - 1) as nat), SCALE as int);
    }
}

/// A factor of at least one compounds to at least itself.
proof fn lemma_powfix_ge_self(x: int, k: nat)
    requires
        SCALE <= x <= POW_CAP,
        1 <= k,
    ensures
        x <= powfix(x, k),
    decreases k,
{
    if k == 1 {
        assert(powfix(x, (k - 1) as nat) == SCALE);
        lemma_div_multiples_vanish(x, SCALE as int);
        assert(x * (SCALE as int) == (SCALE as int) * x);
    } else {
        lemma_powfix_ge_self(x, (k - 1) as nat);
        lemma_powfix_nonneg(x, (k - 1) as nat);
        let p = powfix(x, (k - 1) as nat);
        lemma_mul_left_inequality(x, SCALE as int, p);
        lemma_div_is_ordered(x * SCALE, x * p, SCALE as int);
        lemma_div_multiples_vanish(x, SCALE as int);
        assert(x * (SCALE as int) == (SCALE as int) * x);
    }
}

/// Run the fixed-point compounding recursion.
fn powfix_exec(x: i128, k: i64) -> (r: i128)
    requires
        0 <= x <= POW_CAP,
        0 <= k,
    ensures
        r == powfix(x as int, k as nat),
{
    let mut val: i128 = SCALE;
    let mut j: i64 = 0;
    while j < k
        invariant
            0 <= j <= k,
            0 <= x <= POW_CAP,
            val == powfix(x as int, j as nat),
            0 <= val <= POW_CAP,
        decreases k - j,
    {
        proof {
            assert(x * val <= 4_000_000_000_000_000_000_000_000_000_000_000_000i128)
                by (nonlinear_arith)
                requires
                    0 <= x <= 2_000_000_000_000_000_000i128,
                    0 <= val <= 2_000_000_000_000_000_000i128;
            lemma_mul_nonnegative(x as int, val as int);
        }
        let q: i128 = div_floor(x * val, SCALE);
        let newv: i128 = if q > POW_CAP {
            POW_CAP
        } else {
            q
        };
        proof {
            assert(powfix(x as int, (j + 1) as nat) == newv) by {
                assert(((j + 1) as nat - 1) as nat == j as nat);
            }
        }
        val = newv;
        j = j + 1;
    }
    val
}

/// The total growth target: the end value relative to the start value, in
/// raw units.
pub open spec fn cagr_target(start: i128, end: i128) -> int {
    end * SCALE / start as int
}

/// `r` is the compound annual growth rate at fixed-point precision: the
/// largest rate whose `years`-fold compounding does not exceed the growth
/// target, while one raw unit more does.
pub open spec fn is_cagr(start: i128, end: i128, years: i64, r: int) -> bool {
    &&& -SCALE <= r
    &&& powfix(r + SCALE, years as nat) <= cagr_target(start, end)
    &&& powfix(r + SCALE + 1, years as nat) > cagr_target(start, end)
}

/// Compound annual growth rate from a start value to an end value over a
/// whole number of years. A non-positive start, end or year count gives the
/// degenerate zero.
///
/// The span is restricted to whole years: a fractional span would call for
/// a rational-exponent root, which exact integer arithmetic cannot take.
pub fn calculate_cagr(start_value: i128, end_value: i128, years: i64) -> (r: i128)
    requires
        -MAX_RAW <= start_value <= MAX_RAW,
        -MAX_RAW <= end_value <= MAX_RAW,
    ensures
        start_value <= 0 || years <= 0 || end_value <= 0 ==> r == 0,
        start_value > 0 && years > 0 && end_value > 0 ==> is_cagr(
            start_value,
            end_value,
            years,
            r as int,
        ),
{
    if start_value <= 0 || years <= 0 || end_value <= 0 {
        return 0;
    }
    let target: i128 = div_floor(end_value * SCALE, start_value);
    let mut lo: i128 = 0;
    let mut hi: i128 = target + SCALE + 1;
    proof {
        lemma_powfix_zero(years as nat);
        lemma_powfix_ge_self(hi as int, years as nat);
    }
    while hi - lo > 1
        invariant
            0 <= lo < hi <= target + SCALE + 1,
            0 <= target <= 1_000_000_000_000_000_000,
            1 <= years,
            powfix(lo as int, years as nat) <= target,
            powfix(hi as int, years as nat) > target,
        decreases hi - lo,
    {
        proof {
            lemma_div_pos_is_pos((hi - lo) as int, 2);
            lemma_div_decreases((hi - lo) as int, 2);
            lemma_div_is_ordered(2, (hi - lo) as int, 2);
            lemma_div_by_self(2);
        }
        let mid: i128 = lo + div_floor(hi - lo, 2);
        let pm: i128 = powfix_exec(mid, years);
        if pm <= target {
            lo = mid;
        } else {
            hi = mid;
        }
    }
    lo - SCALE
}

/// Percentage change from an old to a new value, in raw percentage points
/// (one hundred times the relative change). A zero old value gives zero.
pub open spec fn spec_pct_change(o: i128, n: i128) -> int {
    if o == 0 {
        0
    } else {
        let num = (n - o) * 100 * SCALE;
        if o > 0 {
            num / o as int
        } else {
            -(num / -(o as int))
        }
    }
}

/// Percentage change between two values.
pub fn calculate_pct_change(old_value: i128, new_value: i128) -> (r: i128)
    requires
        -MAX_RAW <= old_value <= MAX_RAW,
        -MAX_RAW <= new_value <= MAX_RAW,
    ensures
        r == spec_pct_change(old_value, new_value),
        old_value == 0 ==> r == 0,
{
    if old_value == 0 {
        return 0;
    }
    let num: i128 = (new_value - old_value) * 100 * SCALE;
    if old_value > 0 {
        div_floor(num, old_value)
    } else {
        -div_floor(num, -old_value)
    }
}

/// A volume spike is a current volume strictly above one and a half times
/// the average volume.
pub fn detect_volume_spike(current_volume: i128, avg_volume: i128) -> (r: bool)
    requires
        -MAX_RAW <= current_volume <= MAX_RAW,
        -MAX_RAW <= avg_volume <= MAX_RAW,
    ensures
        r <==> 2 * current_volume > 3 * avg_volume,
{
    2 * current_volume > 3 * avg_volume
}

} // verus!
