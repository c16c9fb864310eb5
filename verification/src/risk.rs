//! Risk metrics: annualized volatility, Sharpe ratio, 95% value-at-risk,
//! maximum drawdown and beta, all over fixed-point series.

use vstd::prelude::*;
use vstd::arithmetic::div_mod::{
    lemma_div_is_strictly_smaller, lemma_div_multiples_vanish, lemma_div_of0,
};
use crate::fixnum::{
    div_floor, in_range, isqrt_i128, lemma_div_bound, seq_sum, sorted_asc, sorted_copy,
    spec_isqrt, sum_range, MAX_LEN, MAX_RAW, SCALE,
};

verus! {

/// Bound on one squared deviation of two in-range values.
pub const DEV_BOUND: i128 = 4_000_000_000_000_000_000_000_000;

/// Floor of the average of the series.
pub open spec fn spec_mean(s: Seq<i128>) -> int {
    seq_sum(s) / s.len() as int
}

/// Sum of products of deviations from the given centres, pairing the two
/// series elementwise.
pub open spec fn cov_sum(x: Seq<i128>, y: Seq<i128>, mx: int, my: int) -> int
    decreases x.len(),
{
    if x.len() == 0 {
        0
    } else {
        cov_sum(x.drop_last(), y.drop_last(), mx, my) + (x.last() - mx) * (y.last() - my)
    }
}

/// A sum of squared deviations is never negative.
pub proof fn lemma_sq_dev_nonneg(s: Seq<i128>, m: int)
    ensures
        cov_sum(s, s, m, m) >= 0,
    decreases s.len(),
{
    if s.len() == 0 {
    } else {
        lemma_sq_dev_nonneg(s.drop_last(), m);
        assert((s.last() - m) * (s.last() - m) >= 0) by (nonlinear_arith);
    }
}

/// Population variance of the series times 252 trading days, in squared raw
/// units; its integer square root is the annualized volatility in raw units.
pub open spec fn annualized_variance(s: Seq<i128>) -> int {
    cov_sum(s, s, spec_mean(s), spec_mean(s)) / s.len() as int * 252
}

/// Annualized volatility: integer square root of the annualized variance;
/// an empty series has volatility zero.
pub open spec fn spec_volatility(s: Seq<i128>) -> int {
    if s.len() == 0 {
        0
    } else {
        spec_isqrt(annualized_variance(s))
    }
}

/// Exact sum of deviation products of two equally long series.
fn dev_products(x: &Vec<i128>, y: &Vec<i128>, mx: i128, my: i128) -> (s: i128)
    requires
        x@.len() == y@.len(),
        x@.len() <= MAX_LEN,
        in_range(x@),
        in_range(y@),
        -MAX_RAW <= mx <= MAX_RAW,
        -MAX_RAW <= my <= MAX_RAW,
    ensures
        s == cov_sum(x@, y@, mx as int, my as int),
        -(x@.len() * DEV_BOUND) <= s <= x@.len() * DEV_BOUND,
{
    let mut s: i128 = 0;
    let mut i: usize = 0;
    proof {
        assert(x@.subrange(0, 0) =~= Seq::<i128>::empty());
    }
    while i < x.len()
        invariant
            i <= x@.len() == y@.len(),
            x@.len() <= MAX_LEN,
            in_range(x@),
            in_range(y@),
            -MAX_RAW <= mx <= MAX_RAW,
            -MAX_RAW <= my <= MAX_RAW,
            s == cov_sum(
                x@.subrange(0, i as int),
                y@.subrange(0, i as int),
                mx as int,
                my as int,
            ),
            -(i * DEV_BOUND) <= s <= i * DEV_BOUND,
        decreases x@.len() - i,
    {
        let dx: i128 = x[i] - mx;
        let dy: i128 = y[i] - my;
        proof {
            assert(-DEV_BOUND <= dx * dy <= DEV_BOUND) by (nonlinear_arith)
                requires
                    -2_000_000_000_000 <= dx <= 2_000_000_000_000,
                    -2_000_000_000_000 <= dy <= 2_000_000_000_000,
                    DEV_BOUND == 4_000_000_000_000_000_000_000_000;
            assert(i * DEV_BOUND <= 1_000_000_000 * DEV_BOUND) by (nonlinear_arith)
                requires 0 <= i <= 1_000_000_000, DEV_BOUND > 0;
            assert((i + 1) * DEV_BOUND == i * DEV_BOUND + DEV_BOUND) by (nonlinear_arith);
            assert(x@.subrange(0, i + 1).drop_last() =~= x@.subrange(0, i as int));
            assert(y@.subrange(0, i + 1).drop_last() =~= y@.subrange(0, i as int));
        }
        s = s + dx * dy;
        i = i + 1;
    }
    proof {
        assert(x@.subrange(0, i as int) =~= x@);
        assert(y@.subrange(0, i as int) =~= y@);
    }
    s
}

/// Annualized volatility of a return series: population standard deviation
/// of the returns times the square root of 252, at fixed-point precision.
/// Never negative.
pub fn calculate_volatility(rets: &Vec<i128>) -> (r: i128)
    requires
        in_range(rets@),
        rets@.len() <= MAX_LEN,
    ensures
        r == spec_volatility(rets@),
        0 <= r,
{
    let n: usize = rets.len();
    if n == 0 {
        return 0;
    }
    let total: i128 = sum_range(rets, 0, n);
    proof {
        assert(rets@.subrange(0, n as int) =~= rets@);
        lemma_div_bound(total as int, n as int, MAX_RAW as int);
    }
    let mean: i128 = div_floor(total, n as i128);
    let sq: i128 = dev_products(rets, rets, mean, mean);
    proof {
        lemma_sq_dev_nonneg(rets@, mean as int);
        lemma_div_bound(sq as int, n as int, DEV_BOUND as int);
    }
    let varr: i128 = div_floor(sq, n as i128);
    isqrt_i128(varr * 252)
}

/// Sharpe ratio given the annualized risk-free rate: annualized mean excess
/// return divided by the annualized volatility; zero on an empty series or
/// when the volatility is zero.
pub open spec fn spec_sharpe(s: Seq<i128>, rf: i128) -> int {
    if s.len() == 0 {
        0
    } else {
        let vol = spec_volatility(s);
        if vol == 0 {
            0
        } else {
            (spec_mean(s) * 252 - rf) * SCALE / vol
        }
    }
}

/// Sharpe ratio of a return series.
pub fn calculate_sharpe_ratio(rets: &Vec<i128>, risk_free_rate: i128) -> (r: i128)
    requires
        in_range(rets@),
        rets@.len() <= MAX_LEN,
        -MAX_RAW <= risk_free_rate <= MAX_RAW,
    ensures
        r == spec_sharpe(rets@, risk_free_rate),
{
    let n: usize = rets.len();
    if n == 0 {
        return 0;
    }
    let vol: i128 = calculate_volatility(rets);
    if vol == 0 {
        return 0;
    }
    let total: i128 = sum_range(rets, 0, n);
    proof {
        assert(rets@.subrange(0, n as int) =~= rets@);
        lemma_div_bound(total as int, n as int, MAX_RAW as int);
    }
    let mean: i128 = div_floor(total, n as i128);
    let num: i128 = (mean * 252 - risk_free_rate) * SCALE;
    div_floor(num, vol)
}

/// Empirical 95% value-at-risk: the element at the 5th-percentile index of
/// the series sorted ascending; zero on an empty series, and the sole
/// element of a one-element series.
pub fn calculate_var_95(rets: &Vec<i128>) -> (r: i128)
    ensures
        rets@.len() == 0 ==> r == 0,
        rets@.len() > 0 ==> exists|t: Seq<i128>|
            #[trigger] t.to_multiset() == rets@.to_multiset() && sorted_asc(t) && t.len()
                == rets@.len() && r == t[rets@.len() as int / 20],
        rets@.len() == 1 ==> r == rets@[0],
{
    let n: usize = rets.len();
    if n == 0 {
        return 0;
    }
    let sorted: Vec<i128> = sorted_copy(rets);
    let idx: usize = n / 20;
    proof {
        lemma_div_is_strictly_smaller(n as int, 20);
        broadcast use vstd::seq_lib::group_to_multiset_ensures;
        if n == 1 {
            assert(sorted@.contains(sorted@[0]));
            assert(rets@.to_multiset().count(sorted@[0]) > 0);
            assert(rets@.contains(sorted@[0]));
        }
    }
    let r: i128 = sorted[idx];
    proof {
        assert(sorted@.to_multiset() == rets@.to_multiset() && sorted_asc(sorted@)
            && sorted@.len() == rets@.len() && r == sorted@[rets@.len() as int / 20]);
    }
    r
}

/// The larger of two integers.
pub open spec fn int_max(a: int, b: int) -> int {
    if a > b {
        a
    } else {
        b
    }
}

/// Running peak of a non-empty series: the largest element seen so far.
pub open spec fn peak_of(s: Seq<i128>) -> int
    decreases s.len(),
{
    if s.len() <= 1 {
        s[0] as int
    } else {
        int_max(peak_of(s.drop_last()), s.last() as int)
    }
}

/// Fractional drop from a positive peak, in raw units; zero when the peak
/// is not positive.
pub open spec fn dd_step(peak: int, price: int) -> int {
    if peak > 0 {
        (peak - price) * SCALE / peak
    } else {
        0
    }
}

/// Largest fractional drop from a running peak seen anywhere in the series.
pub open spec fn max_dd(s: Seq<i128>) -> int
    decreases s.len(),
{
    if s.len() == 0 {
        0
    } else {
        int_max(max_dd(s.drop_last()), dd_step(peak_of(s), s.last() as int))
    }
}

/// Maximum drawdown, reported as a non-positive number.
pub open spec fn spec_max_drawdown(s: Seq<i128>) -> int {
    -max_dd(s)
}

/// Maximum drawdown of a price series: the largest peak-to-trough fractional
/// decline, returned as a negative fraction of the peak (zero when the
/// series never declines or is empty).
pub fn calculate_max_drawdown(prices: &Vec<i128>) -> (r: i128)
    requires
        in_range(prices@),
    ensures
        r == spec_max_drawdown(prices@),
        r <= 0,
{
    let n: usize = prices.len();
    if n == 0 {
        return 0;
    }
    let mut peak: i128 = prices[0];
    let mut mdd: i128 = 0;
    let mut i: usize = 1;
    proof {
        let s1 = prices@.subrange(0, 1);
        assert(s1.len() == 1 && s1[0] == prices@[0]);
        assert(peak_of(s1) == prices@[0]);
        assert(dd_step(peak_of(s1), s1.last() as int) == 0) by {
            if prices@[0] > 0 {
                lemma_div_of0(prices@[0] as int);
            }
        }
        assert(max_dd(s1) == 0) by {
            reveal_with_fuel(max_dd, 2);
            assert(s1.drop_last().len() == 0);
        }
    }
    while i < n
        invariant
            1 <= i <= n == prices@.len(),
            in_range(prices@),
            peak == peak_of(prices@.subrange(0, i as int)),
            -MAX_RAW <= peak <= MAX_RAW,
            mdd == max_dd(prices@.subrange(0, i as int)),
            0 <= mdd <= 2_000_000_000_000_000_000,
        decreases n - i,
    {
        let p: i128 = prices[i];
        if p > peak {
            peak = p;
        }
        let dd: i128 = if peak > 0 {
            div_floor((peak - p) * SCALE, peak)
        } else {
            0
        };
        proof {
            let prev = prices@.subrange(0, i as int);
            let cur = prices@.subrange(0, i + 1);
            assert(cur.drop_last() =~= prev);
            assert(cur.last() == prices@[i as int]);
            assert(peak == peak_of(cur));
            assert(dd == dd_step(peak as int, p as int));
        }
        if dd > mdd {
            mdd = dd;
        }
        i = i + 1;
    }
    proof {
        assert(prices@.subrange(0, n as int) =~= prices@);
    }
    -mdd
}

/// A series that never declines has no drawdown at all.
///
/// In particular a strictly increasing or constant price series has maximum
/// drawdown exactly zero.
pub proof fn lemma_max_drawdown_nondecreasing(s: Seq<i128>)
    requires
        forall|i: int, j: int| 0 <= i <= j < s.len() ==> s[i] <= s[j],
    ensures
        max_dd(s) == 0,
        spec_max_drawdown(s) == 0,
    decreases s.len(),
{
    if s.len() == 0 {
    } else {
        lemma_max_drawdown_nondecreasing(s.drop_last());
        lemma_peak_nondecreasing(s);
        if s.last() > 0 {
            lemma_div_of0(s.last() as int);
        }
        assert(dd_step(peak_of(s), s.last() as int) == 0);
    }
}

/// The running peak of a non-empty nondecreasing series is its last element.
proof fn lemma_peak_nondecreasing(s: Seq<i128>)
    requires
        s.len() >= 1,
        forall|i: int, j: int| 0 <= i <= j < s.len() ==> s[i] <= s[j],
    ensures
        peak_of(s) == s.last(),
    decreases s.len(),
{
    if s.len() > 1 {
        lemma_peak_nondecreasing(s.drop_last());
    }
}

/// Beta of a stock return series against a market return series:
/// population covariance over market variance. Series of different lengths,
/// empty series, and a market with zero variance all give the neutral beta
/// of one.
pub open spec fn spec_beta(stock: Seq<i128>, market: Seq<i128>) -> int {
    if stock.len() != market.len() || stock.len() == 0 {
        SCALE as int
    } else {
        let n = stock.len() as int;
        let ms = spec_mean(stock);
        let mm = spec_mean(market);
        let cov = cov_sum(stock, market, ms, mm) / n;
        let varm = cov_sum(market, market, mm, mm) / n;
        if varm == 0 {
            SCALE as int
        } else {
            cov * SCALE / varm
        }
    }
}

/// Beta of a stock against the market.
pub fn calculate_beta(stock_rets: &Vec<i128>, market_rets: &Vec<i128>) -> (r: i128)
    requires
        in_range(stock_rets@),
        in_range(market_rets@),
        stock_rets@.len() <= MAX_LEN,
        market_rets@.len() <= MAX_LEN,
    ensures
        r == spec_beta(stock_rets@, market_rets@),
{
    let n: usize = stock_rets.len();
    if n != market_rets.len() || n == 0 {
        return SCALE;
    }
    let ts: i128 = sum_range(stock_rets, 0, n);
    let tm: i128 = sum_range(market_rets, 0, n);
    proof {
        assert(stock_rets@.subrange(0, n as int) =~= stock_rets@);
        assert(market_rets@.subrange(0, n as int) =~= market_rets@);
        lemma_div_bound(ts as int, n as int, MAX_RAW as int);
        lemma_div_bound(tm as int, n as int, MAX_RAW as int);
    }
    let ms: i128 = div_floor(ts, n as i128);
    let mm: i128 = div_floor(tm, n as i128);
    let cov: i128 = dev_products(stock_rets, market_rets, ms, mm);
    let varm: i128 = dev_products(market_rets, market_rets, mm, mm);
    proof {
        lemma_div_bound(cov as int, n as int, DEV_BOUND as int);
        lemma_sq_dev_nonneg(market_rets@, mm as int);
    }
    let covq: i128 = div_floor(cov, n as i128);
    let varq: i128 = div_floor(varm, n as i128);
    if varq == 0 {
        return SCALE;
    }
    div_floor(covq * SCALE, varq)
}

/// Beta of a series against itself is exactly one: covariance with itself
/// is its variance, and a variance of zero falls back to the same neutral
/// value.
pub proof fn lemma_beta_identical(s: Seq<i128>)
    ensures
        spec_beta(s, s) == SCALE,
{
    if s.len() == 0 {
    } else {
        let n = s.len() as int;
        let m = spec_mean(s);
        let varm = cov_sum(s, s, m, m) / n;
        if varm != 0 {
            lemma_sq_dev_nonneg(s, m);
            assert(varm >= 0) by {
                vstd::arithmetic::div_mod::lemma_div_pos_is_pos(cov_sum(s, s, m, m), n);
            }
            lemma_div_multiples_vanish(SCALE as int, varm);
        }
    }
}

} // verus!
