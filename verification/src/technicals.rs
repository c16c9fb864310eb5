//! Technical indicators: simple and exponential moving averages, RSI, MACD
//! and golden/death cross detection over fixed-point price series.

use vstd::prelude::*;
use vstd::arithmetic::div_mod::{
    lemma_div_by_self, lemma_div_is_ordered, lemma_div_multiples_vanish, lemma_div_of0,
};
use crate::fixnum::{
    div_floor, in_range, lemma_div_bound, prefix_vec, seq_sum, sum_range, MAX_RAW, SCALE,
};

verus! {

/// Trailing-window simple moving average: the average of the most recent
/// `p` elements; zero when the window is empty or longer than the series.
pub open spec fn spec_sma(s: Seq<i128>, p: int) -> int {
    if p <= 0 || s.len() < p {
        0
    } else {
        seq_sum(s.subrange(s.len() - p, s.len() as int)) / p
    }
}

/// Simple moving average of the trailing `period` prices.
pub fn calculate_sma(prices: &Vec<i128>, period: usize) -> (r: i128)
    requires
        in_range(prices@),
    ensures
        r == spec_sma(prices@, period as int),
        -MAX_RAW <= r <= MAX_RAW,
{
    let n: usize = prices.len();
    if period == 0 || n < period {
        return 0;
    }
    let total: i128 = sum_range(prices, n - period, n);
    proof {
        lemma_div_bound(total as int, period as int, MAX_RAW as int);
    }
    div_floor(total, period as i128)
}

/// A window of constant prices averages to that constant.
pub proof fn lemma_sma_constant(s: Seq<i128>, c: i128, p: int)
    requires
        1 <= p <= s.len(),
        forall|i: int| 0 <= i < s.len() ==> s[i] == c,
    ensures
        spec_sma(s, p) == c,
{
    let w = s.subrange(s.len() - p, s.len() as int);
    lemma_seq_sum_const(w, c);
    assert(w.len() * c == p * c);
    lemma_div_multiples_vanish(c as int, p);
}

/// Sum of a constant sequence.
proof fn lemma_seq_sum_const(s: Seq<i128>, c: i128)
    requires
        forall|i: int| 0 <= i < s.len() ==> s[i] == c,
    ensures
        seq_sum(s) == s.len() * c,
    decreases s.len(),
{
    if s.len() == 0 {
    } else {
        lemma_seq_sum_const(s.drop_last(), c);
        let k: int = s.len() as int;
        assert(s[k - 1] == c);
        assert((k - 1) * c == k * c - c) by (nonlinear_arith);
    }
}

/// The exponential moving average recursion: seeded with the first element,
/// each further element `x` moves the average to
/// `(2 x + (p - 1) ema) / (p + 1)`, the standard smoothing update with
/// multiplier `2 / (p + 1)` at fixed-point precision.
pub open spec fn ema_rec(s: Seq<i128>, p: int) -> int
    decreases s.len(),
{
    if s.len() <= 1 {
        s[0] as int
    } else {
        (2 * s.last() + (p - 1) * ema_rec(s.drop_last(), p)) / (p + 1)
    }
}

/// Exponential moving average over the whole series; zero for an empty
/// series or a zero period.
pub open spec fn spec_ema(s: Seq<i128>, p: int) -> int {
    if s.len() == 0 || p <= 0 {
        0
    } else {
        ema_rec(s, p)
    }
}

/// Exponential moving average of the series with the given period.
pub fn calculate_ema(prices: &Vec<i128>, period: usize) -> (r: i128)
    requires
        in_range(prices@),
    ensures
        r == spec_ema(prices@, period as int),
        -MAX_RAW <= r <= MAX_RAW,
{
    let n: usize = prices.len();
    if n == 0 || period == 0 {
        return 0;
    }
    let p: i128 = period as i128;
    let mut ema: i128 = prices[0];
    let mut i: usize = 1;
    proof {
        assert(prices@.subrange(0, 1).len() == 1);
        assert(prices@.subrange(0, 1)[0] == prices@[0]);
    }
    while i < n
        invariant
            1 <= i <= n == prices@.len(),
            in_range(prices@),
            p == period as i128,
            1 <= p,
            ema == ema_rec(prices@.subrange(0, i as int), p as int),
            -MAX_RAW <= ema <= MAX_RAW,
        decreases n - i,
    {
        let x: i128 = prices[i];
        proof {
            assert(-((p + 1) * MAX_RAW) <= 2 * x + (p - 1) * ema <= (p + 1) * MAX_RAW)
                by (nonlinear_arith)
                requires
                    1 <= p <= 36_893_488_147_419_103_232i128,
                    -MAX_RAW <= x <= MAX_RAW,
                    -MAX_RAW <= ema <= MAX_RAW,
                    MAX_RAW == 1_000_000_000_000i128;
            assert((p + 1) * MAX_RAW <= 36_893_488_147_419_103_233i128 * MAX_RAW)
                by (nonlinear_arith)
                requires 1 <= p <= 36_893_488_147_419_103_232i128, MAX_RAW > 0;
        }
        let num: i128 = 2 * x + (p - 1) * ema;
        let newe: i128 = div_floor(num, p + 1);
        proof {
            let cur = prices@.subrange(0, i + 1);
            assert(cur.drop_last() =~= prices@.subrange(0, i as int));
            assert(cur.last() == prices@[i as int]);
            assert(cur.len() > 1);
            lemma_div_bound(num as int, (p + 1) as int, MAX_RAW as int);
        }
        ema = newe;
        i = i + 1;
    }
    proof {
        assert(prices@.subrange(0, n as int) =~= prices@);
    }
    ema
}

/// With period one the smoothing multiplier is one, so the exponential
/// moving average of any non-empty series is exactly its last element.
pub proof fn lemma_ema_period_one(s: Seq<i128>)
    requires
        s.len() >= 1,
    ensures
        spec_ema(s, 1) == s.last(),
    decreases s.len(),
{
    if s.len() > 1 {
        lemma_ema_period_one(s.drop_last());
        assert(0 * ema_rec(s.drop_last(), 1) == 0) by (nonlinear_arith);
        lemma_div_multiples_vanish(s.last() as int, 2);
    }
}

/// A constant series has that constant as its exponential moving average,
/// for every positive period.
pub proof fn lemma_ema_constant(s: Seq<i128>, c: i128, p: int)
    requires
        1 <= p,
        1 <= s.len(),
        forall|i: int| 0 <= i < s.len() ==> s[i] == c,
    ensures
        spec_ema(s, p) == c,
    decreases s.len(),
{
    if s.len() > 1 {
        lemma_ema_constant(s.drop_last(), c, p);
        assert(2 * c + (p - 1) * c == (p + 1) * c) by (nonlinear_arith);
        lemma_div_multiples_vanish(c as int, p + 1);
    }
}

/// Price gain over the step ending at index `i`; zero on a decline.
pub open spec fn gain_at(s: Seq<i128>, i: int) -> int {
    if s[i] - s[i - 1] > 0 {
        s[i] - s[i - 1]
    } else {
        0
    }
}

/// Magnitude of the price loss over the step ending at index `i`; zero on
/// a gain.
pub open spec fn loss_at(s: Seq<i128>, i: int) -> int {
    if s[i] - s[i - 1] > 0 {
        0
    } else {
        s[i - 1] - s[i]
    }
}

/// Sum of the step gains with end indices in `[from, to)`.
pub open spec fn gain_sum(s: Seq<i128>, from: int, to: int) -> int
    decreases to - from,
{
    if to <= from {
        0
    } else {
        gain_sum(s, from, to - 1) + gain_at(s, to - 1)
    }
}

/// Sum of the step loss magnitudes with end indices in `[from, to)`.
pub open spec fn loss_sum(s: Seq<i128>, from: int, to: int) -> int
    decreases to - from,
{
    if to <= from {
        0
    } else {
        loss_sum(s, from, to - 1) + loss_at(s, to - 1)
    }
}

/// Relative strength index over the trailing `p` steps, on the 0 to 100
/// scale in raw units. A series shorter than `p + 1` (or a zero period)
/// gives the neutral 50; a window without losses gives 100.
pub open spec fn spec_rsi(s: Seq<i128>, p: int) -> int {
    if p <= 0 || s.len() < p + 1 {
        50 * SCALE
    } else {
        let ag = gain_sum(s, s.len() - p, s.len() as int) / p;
        let al = loss_sum(s, s.len() - p, s.len() as int) / p;
        if al == 0 {
            100 * SCALE
        } else {
            let rs = ag * SCALE / al;
            100 * SCALE - (100 * SCALE * SCALE) / (SCALE + rs)
        }
    }
}

/// Relative strength index of the price series over the given period.
pub fn calculate_rsi(prices: &Vec<i128>, period: usize) -> (r: i128)
    requires
        in_range(prices@),
    ensures
        r == spec_rsi(prices@, period as int),
{
    let n: usize = prices.len();
    if period == 0 || n == 0 || n - 1 < period {
        return 50 * SCALE;
    }
    let start: usize = n - period;
    let mut g: i128 = 0;
    let mut l: i128 = 0;
    let mut i: usize = start;
    while i < n
        invariant
            1 <= start <= i <= n == prices@.len(),
            start == n - period,
            in_range(prices@),
            g == gain_sum(prices@, start as int, i as int),
            l == loss_sum(prices@, start as int, i as int),
            0 <= g <= (i - start) * 2_000_000_000_000,
            0 <= l <= (i - start) * 2_000_000_000_000,
        decreases n - i,
    {
        let change: i128 = prices[i] - prices[i - 1];
        proof {
            assert((i + 1 - start) * 2_000_000_000_000 == (i - start) * 2_000_000_000_000
                + 2_000_000_000_000) by (nonlinear_arith);
            assert((i - start) * 2_000_000_000_000 <= 36_893_488_147_419_103_232i128
                * 2_000_000_000_000) by (nonlinear_arith)
                requires 0 <= i - start <= 36_893_488_147_419_103_232i128;
        }
        if change > 0 {
            g = g + change;
        } else {
            l = l - change;
        }
        i = i + 1;
    }
    let p: i128 = period as i128;
    proof {
        assert(g <= period * 2_000_000_000_000);
        assert(l <= period * 2_000_000_000_000);
        lemma_div_bound(g as int, p as int, 2_000_000_000_000);
        lemma_div_bound(l as int, p as int, 2_000_000_000_000);
    }
    let ag: i128 = div_floor(g, p);
    let al: i128 = div_floor(l, p);
    if al == 0 {
        return 100 * SCALE;
    }
    let rs: i128 = div_floor(ag * SCALE, al);
    let q: i128 = div_floor(100 * SCALE * SCALE, SCALE + rs);
    100 * SCALE - q
}

/// A window of nondecreasing prices has no losses, so its RSI is the
/// maximal 100. In particular every strictly increasing series with at
/// least `p + 1` points reads 100.
pub proof fn lemma_rsi_no_losses(s: Seq<i128>, p: int)
    requires
        1 <= p,
        p + 1 <= s.len(),
        forall|i: int, j: int| 0 <= i <= j < s.len() ==> s[i] <= s[j],
    ensures
        spec_rsi(s, p) == 100 * SCALE,
{
    lemma_loss_sum_zero(s, s.len() - p, s.len() as int);
    lemma_div_of0(p);
}

/// Losses vanish over any window of a nondecreasing series.
proof fn lemma_loss_sum_zero(s: Seq<i128>, from: int, to: int)
    requires
        1 <= from,
        to <= s.len(),
        forall|i: int, j: int| 0 <= i <= j < s.len() ==> s[i] <= s[j],
    ensures
        loss_sum(s, from, to) == 0,
    decreases to - from,
{
    if to > from {
        lemma_loss_sum_zero(s, from, to - 1);
        assert(s[to - 2] <= s[to - 1]);
    }
}

/// A window of strictly decreasing prices has no gains and a positive
/// average loss, so its RSI is the minimal 0.
pub proof fn lemma_rsi_all_losses(s: Seq<i128>, p: int)
    requires
        1 <= p,
        p + 1 <= s.len(),
        forall|i: int, j: int| 0 <= i < j < s.len() ==> s[j] < s[i],
    ensures
        spec_rsi(s, p) == 0,
{
    let from = s.len() - p;
    let to = s.len() as int;
    lemma_gain_sum_zero(s, from, to);
    lemma_loss_sum_min(s, from, to);
    let al = loss_sum(s, from, to) / p;
    assert(al >= 1) by {
        lemma_div_is_ordered(p, loss_sum(s, from, to), p);
        lemma_div_by_self(p);
    }
    lemma_div_of0(p);
    lemma_div_of0(al);
    assert(gain_sum(s, from, to) / p * SCALE == 0);
    assert((100 * SCALE * SCALE) / (SCALE as int) == 100 * SCALE);
}

/// Gains vanish over any window of a strictly decreasing series.
proof fn lemma_gain_sum_zero(s: Seq<i128>, from: int, to: int)
    requires
        1 <= from,
        to <= s.len(),
        forall|i: int, j: int| 0 <= i < j < s.len() ==> s[j] < s[i],
    ensures
        gain_sum(s, from, to) == 0,
    decreases to - from,
{
    if to > from {
        lemma_gain_sum_zero(s, from, to - 1);
        assert(s[to - 1] < s[to - 2]);
    }
}

/// Each step of a strictly decreasing series loses at least one raw unit.
proof fn lemma_loss_sum_min(s: Seq<i128>, from: int, to: int)
    requires
        1 <= from,
        to <= s.len(),
        forall|i: int, j: int| 0 <= i < j < s.len() ==> s[j] < s[i],
    ensures
        loss_sum(s, from, to) >= to - from,
    decreases to - from,
{
    if to > from {
        lemma_loss_sum_min(s, from, to - 1);
        assert(s[to - 1] < s[to - 2]);
    }
}

/// The MACD line: 12-period EMA minus 26-period EMA of the whole series.
pub open spec fn spec_macd_line(s: Seq<i128>) -> int {
    spec_ema(s, 12) - spec_ema(s, 26)
}

/// MACD triple (line, signal, histogram). The signal line is the fixed
/// nine-tenths approximation of the MACD line, not an EMA of MACD history;
/// the histogram is the difference. Fewer than 26 points give all zeros.
pub open spec fn spec_macd(s: Seq<i128>) -> (int, int, int) {
    if s.len() < 26 {
        (0, 0, 0)
    } else {
        let m = spec_macd_line(s);
        let sig = 9 * m / 10;
        (m, sig, m - sig)
    }
}

/// MACD of the price series: line, approximate signal, histogram.
pub fn calculate_macd(prices: &Vec<i128>) -> (r: (i128, i128, i128))
    requires
        in_range(prices@),
    ensures
        r.0 == spec_macd(prices@).0,
        r.1 == spec_macd(prices@).1,
        r.2 == spec_macd(prices@).2,
{
    if prices.len() < 26 {
        return (0, 0, 0);
    }
    let e12: i128 = calculate_ema(prices, 12);
    let e26: i128 = calculate_ema(prices, 26);
    let m: i128 = e12 - e26;
    let sig: i128 = div_floor(9 * m, 10);
    (m, sig, m - sig)
}

/// Golden cross: yesterday the 50-period SMA was strictly below the
/// 200-period SMA and today it is strictly above, on a series of at least
/// 201 points.
pub open spec fn spec_golden_cross(s: Seq<i128>) -> bool {
    s.len() >= 201 && spec_sma(s.drop_last(), 50) < spec_sma(s.drop_last(), 200) && spec_sma(
        s,
        50,
    ) > spec_sma(s, 200)
}

/// Death cross: the mirror of the golden cross, strictly above yesterday
/// and strictly below today.
pub open spec fn spec_death_cross(s: Seq<i128>) -> bool {
    s.len() >= 201 && spec_sma(s.drop_last(), 50) > spec_sma(s.drop_last(), 200) && spec_sma(
        s,
        50,
    ) < spec_sma(s, 200)
}

/// Detect a golden cross at the end of the price series.
pub fn detect_golden_cross(prices: &Vec<i128>) -> (r: bool)
    requires
        in_range(prices@),
    ensures
        r == spec_golden_cross(prices@),
{
    let n: usize = prices.len();
    if n < 201 {
        return false;
    }
    let sma_50_now: i128 = calculate_sma(prices, 50);
    let sma_200_now: i128 = calculate_sma(prices, 200);
    let prev: Vec<i128> = prefix_vec(prices, n - 1);
    proof {
        assert forall|i: int| 0 <= i < prev@.len() implies -MAX_RAW <= #[trigger] prev@[i]
            <= MAX_RAW by {
            assert(prev@[i] == prices@[i]);
        }
        assert(prev@ =~= prices@.drop_last());
    }
    let sma_50_prev: i128 = calculate_sma(&prev, 50);
    let sma_200_prev: i128 = calculate_sma(&prev, 200);
    sma_50_prev < sma_200_prev && sma_50_now > sma_200_now
}

/// Detect a death cross at the end of the price series.
pub fn detect_death_cross(prices: &Vec<i128>) -> (r: bool)
    requires
        in_range(prices@),
    ensures
        r == spec_death_cross(prices@),
{
    let n: usize = prices.len();
    if n < 201 {
        return false;
    }
    let sma_50_now: i128 = calculate_sma(prices, 50);
    let sma_200_now: i128 = calculate_sma(prices, 200);
    let prev: Vec<i128> = prefix_vec(prices, n - 1);
    proof {
        assert forall|i: int| 0 <= i < prev@.len() implies -MAX_RAW <= #[trigger] prev@[i]
            <= MAX_RAW by {
            assert(prev@[i] == prices@[i]);
        }
        assert(prev@ =~= prices@.drop_last());
    }
    let sma_50_prev: i128 = calculate_sma(&prev, 50);
    let sma_200_prev: i128 = calculate_sma(&prev, 200);
    sma_50_prev > sma_200_prev && sma_50_now < sma_200_now
}

/// A golden cross and a death cross can never fire on the same series:
/// yesterday's comparison of the two moving averages cannot be strictly
/// below and strictly above at once.
pub proof fn lemma_cross_exclusive(s: Seq<i128>)
    ensures
        !(spec_golden_cross(s) && spec_death_cross(s)),
{
}

} // verus!
