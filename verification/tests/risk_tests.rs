// Risk metric scenarios over fixed-point series (SCALE raw units = 1.0).

use finmetrics::calculate_beta;
use finmetrics::calculate_max_drawdown;
use finmetrics::calculate_sharpe_ratio;
use finmetrics::calculate_var_95;
use finmetrics::calculate_volatility;
use finmetrics::SCALE;

#[test]
fn volatility_empty_series_is_zero() {
    let rets: Vec<i128> = vec![];
    assert_eq!(calculate_volatility(&rets), 0);
}

#[test]
fn volatility_is_never_negative() {
    let cases: Vec<Vec<i128>> = vec![
        vec![10_000, -10_000],
        vec![-5_000, -7_000, -1_000],
        vec![0, 0, 0],
        vec![123_456],
    ];
    for rets in cases {
        assert!(calculate_volatility(&rets) >= 0);
    }
}

#[test]
fn volatility_symmetric_one_percent() {
    // Daily returns of +1% and -1%: population variance 1e8 raw^2,
    // annualized volatility floor(sqrt(1e8 * 252)) = 158745 raw, i.e. a
    // 1% daily standard deviation annualizes to about 15.87%.
    let rets: Vec<i128> = vec![10_000, -10_000];
    assert_eq!(calculate_volatility(&rets), 158_745);
}

#[test]
fn volatility_constant_series_is_zero() {
    let rets: Vec<i128> = vec![5_000, 5_000, 5_000];
    assert_eq!(calculate_volatility(&rets), 0);
}

#[test]
fn sharpe_empty_series_is_zero() {
    let rets: Vec<i128> = vec![];
    assert_eq!(calculate_sharpe_ratio(&rets, 10_000), 0);
}

#[test]
fn sharpe_zero_volatility_is_zero() {
    let rets: Vec<i128> = vec![5_000, 5_000];
    assert_eq!(calculate_sharpe_ratio(&rets, 0), 0);
}

#[test]
fn sharpe_exact_value() {
    // Mean daily return 1%, annualized 252%, risk-free 100%, volatility
    // 158745 raw: floor(1.52e6 * SCALE / 158745) = 9_575_104, a Sharpe
    // ratio of about 9.575.
    let rets: Vec<i128> = vec![20_000, 0];
    assert_eq!(calculate_sharpe_ratio(&rets, SCALE), 9_575_104);
}

#[test]
fn var_95_empty_series_is_zero() {
    let rets: Vec<i128> = vec![];
    assert_eq!(calculate_var_95(&rets), 0);
}

#[test]
fn var_95_single_element_is_that_element() {
    let rets: Vec<i128> = vec![-42_000];
    assert_eq!(calculate_var_95(&rets), -42_000);
    let rets2: Vec<i128> = vec![7];
    assert_eq!(calculate_var_95(&rets2), 7);
}

#[test]
fn var_95_small_series_takes_minimum() {
    // For n < 20 the 5th-percentile index is 0: the smallest return.
    let rets: Vec<i128> = vec![1_000, -2_000, 500];
    assert_eq!(calculate_var_95(&rets), -2_000);
}

#[test]
fn var_95_twenty_elements_takes_second_smallest() {
    // n = 20 gives index 1 of the sorted copy.
    let mut rets: Vec<i128> = Vec::new();
    for k in 0..20i128 {
        rets.push(1_000 * k);
    }
    rets[7] = -9_000;
    // sorted: -9000, 0, 1000, ... so index 1 is 0.
    assert_eq!(calculate_var_95(&rets), 0);
}

#[test]
fn max_drawdown_empty_series_is_zero() {
    let prices: Vec<i128> = vec![];
    assert_eq!(calculate_max_drawdown(&prices), 0);
}

#[test]
fn max_drawdown_increasing_series_is_zero() {
    let prices: Vec<i128> = vec![SCALE, 2 * SCALE, 3 * SCALE, 10 * SCALE];
    assert_eq!(calculate_max_drawdown(&prices), 0);
}

#[test]
fn max_drawdown_constant_series_is_zero() {
    let prices: Vec<i128> = vec![7 * SCALE, 7 * SCALE, 7 * SCALE];
    assert_eq!(calculate_max_drawdown(&prices), 0);
}

#[test]
fn max_drawdown_half_loss() {
    // Peak 100.0 then 50.0: drawdown one half, reported negative.
    let prices: Vec<i128> = vec![100 * SCALE, 50 * SCALE];
    assert_eq!(calculate_max_drawdown(&prices), -500_000);
}

#[test]
fn max_drawdown_uses_running_peak() {
    // Peak moves up to 200.0 before the fall to 150.0: drop is a quarter.
    let prices: Vec<i128> = vec![100 * SCALE, 200 * SCALE, 150 * SCALE];
    assert_eq!(calculate_max_drawdown(&prices), -250_000);
}

#[test]
fn beta_identical_series_is_one() {
    let rets: Vec<i128> = vec![10_000, -20_000, 5_000];
    assert_eq!(calculate_beta(&rets, &rets), SCALE);
}

#[test]
fn beta_empty_series_defaults_to_one() {
    let empty: Vec<i128> = vec![];
    assert_eq!(calculate_beta(&empty, &empty), SCALE);
}

#[test]
fn beta_length_mismatch_defaults_to_one() {
    let stock: Vec<i128> = vec![10_000, -10_000];
    let market: Vec<i128> = vec![10_000];
    assert_eq!(calculate_beta(&stock, &market), SCALE);
}

#[test]
fn beta_zero_market_variance_defaults_to_one() {
    let stock: Vec<i128> = vec![10_000, -10_000];
    let market: Vec<i128> = vec![3_000, 3_000];
    assert_eq!(calculate_beta(&stock, &market), SCALE);
}

#[test]
fn beta_half_market_swing() {
    // Stock swings half as far as the market: beta one half.
    let stock: Vec<i128> = vec![10_000, -10_000];
    let market: Vec<i128> = vec![20_000, -20_000];
    assert_eq!(calculate_beta(&stock, &market), 500_000);
}
