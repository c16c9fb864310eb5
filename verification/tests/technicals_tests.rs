// Technical indicator scenarios over fixed-point series.

use finmetrics::calculate_ema;
use finmetrics::calculate_macd;
use finmetrics::calculate_rsi;
use finmetrics::calculate_sma;
use finmetrics::detect_death_cross;
use finmetrics::detect_golden_cross;
use finmetrics::SCALE;

#[test]
fn sma_zero_period_is_zero() {
    let prices: Vec<i128> = vec![SCALE, 2 * SCALE];
    assert_eq!(calculate_sma(&prices, 0), 0);
}

#[test]
fn sma_short_series_is_zero() {
    let prices: Vec<i128> = vec![SCALE, 2 * SCALE];
    assert_eq!(calculate_sma(&prices, 3), 0);
}

#[test]
fn sma_trailing_window() {
    // Average of the last two of 1.0, 2.0, 3.0, 4.0 is 3.5.
    let prices: Vec<i128> = vec![SCALE, 2 * SCALE, 3 * SCALE, 4 * SCALE];
    assert_eq!(calculate_sma(&prices, 2), 3_500_000);
}

#[test]
fn sma_constant_series_is_that_constant() {
    let prices: Vec<i128> = vec![9 * SCALE, 9 * SCALE, 9 * SCALE, 9 * SCALE];
    assert_eq!(calculate_sma(&prices, 3), 9 * SCALE);
    assert_eq!(calculate_sma(&prices, 4), 9 * SCALE);
}

#[test]
fn ema_empty_or_zero_period_is_zero() {
    let empty: Vec<i128> = vec![];
    assert_eq!(calculate_ema(&empty, 3), 0);
    let prices: Vec<i128> = vec![SCALE];
    assert_eq!(calculate_ema(&prices, 0), 0);
}

#[test]
fn ema_single_smoothing_step() {
    // Seed 100.0, then (2*200 + 2*100)/4 = 150.0 with period 3.
    let prices: Vec<i128> = vec![100 * SCALE, 200 * SCALE];
    assert_eq!(calculate_ema(&prices, 3), 150 * SCALE);
}

#[test]
fn ema_constant_series_is_that_constant() {
    let prices: Vec<i128> = vec![9 * SCALE, 9 * SCALE, 9 * SCALE];
    assert_eq!(calculate_ema(&prices, 5), 9 * SCALE);
}

#[test]
fn ema_period_one_returns_last_price() {
    // A pure uptrend fed through the period-1 EMA gives back the last price.
    let prices: Vec<i128> = vec![SCALE, 2 * SCALE, 3 * SCALE, 8 * SCALE];
    assert_eq!(calculate_ema(&prices, 1), 8 * SCALE);
}

#[test]
fn rsi_short_series_is_neutral() {
    let prices: Vec<i128> = vec![SCALE, 2 * SCALE];
    assert_eq!(calculate_rsi(&prices, 2), 50 * SCALE);
}

#[test]
fn rsi_all_gains_is_hundred() {
    let mut prices: Vec<i128> = Vec::new();
    for k in 1..=16i128 {
        prices.push(k * SCALE);
    }
    assert_eq!(calculate_rsi(&prices, 14), 100 * SCALE);
}

#[test]
fn rsi_all_losses_is_zero() {
    let mut prices: Vec<i128> = Vec::new();
    for k in 0..16i128 {
        prices.push((100 - k) * SCALE);
    }
    assert_eq!(calculate_rsi(&prices, 14), 0);
}

#[test]
fn rsi_mixed_window_exact_value() {
    // Last two changes are -1.0 and +2.0: average gain 1.0, average loss
    // 0.5, relative strength 2, RSI = 100 - 100/3 at raw precision.
    let prices: Vec<i128> = vec![10 * SCALE, 12 * SCALE, 11 * SCALE, 13 * SCALE];
    assert_eq!(calculate_rsi(&prices, 2), 66_666_667);
}

#[test]
fn rsi_zero_period_is_neutral() {
    let prices: Vec<i128> = vec![SCALE, 2 * SCALE, 3 * SCALE];
    assert_eq!(calculate_rsi(&prices, 0), 50 * SCALE);
}

#[test]
fn macd_negative_line_after_drop() {
    // 25 days at 351.0 then a drop to 0: the 12-period EMA is 297.0, the
    // 26-period EMA 325.0, so the line is -28.0.
    let mut prices: Vec<i128> = vec![351 * SCALE; 25];
    prices.push(0);
    assert_eq!(
        calculate_macd(&prices),
        (-28 * SCALE, -25_200_000, -2_800_000)
    );
}

#[test]
fn macd_short_series_is_zero_triple() {
    let prices: Vec<i128> = vec![SCALE; 25];
    assert_eq!(calculate_macd(&prices), (0, 0, 0));
}

#[test]
fn macd_constant_series_is_zero_triple() {
    let prices: Vec<i128> = vec![5 * SCALE; 30];
    assert_eq!(calculate_macd(&prices), (0, 0, 0));
}

#[test]
fn macd_exact_values_after_single_jump() {
    // 25 zeros then 351.0: the 12-period EMA is 54.0, the 26-period EMA is
    // 26.0, so the line is 28.0, the signal nine tenths of it.
    let mut prices: Vec<i128> = vec![0; 25];
    prices.push(351 * SCALE);
    assert_eq!(calculate_macd(&prices), (28 * SCALE, 25_200_000, 2_800_000));
}

#[test]
fn golden_cross_short_series_is_false() {
    let prices: Vec<i128> = vec![SCALE; 200];
    assert!(!detect_golden_cross(&prices));
    assert!(!detect_death_cross(&prices));
}

fn golden_series() -> Vec<i128> {
    // 150 days at 200.0, 50 days at 100.0, then a jump to 10000.0: the
    // 50-day average crosses from below the 200-day average to above it.
    let mut prices: Vec<i128> = vec![200 * SCALE; 150];
    for _ in 0..50 {
        prices.push(100 * SCALE);
    }
    prices.push(10_000 * SCALE);
    prices
}

fn death_series() -> Vec<i128> {
    // 150 days at 100.0, 50 days at 101.0, then a crash to 0: the 50-day
    // average crosses from barely above the 200-day average to below it.
    let mut prices: Vec<i128> = vec![100 * SCALE; 150];
    for _ in 0..50 {
        prices.push(101 * SCALE);
    }
    prices.push(0);
    prices
}

#[test]
fn golden_cross_fires_on_crossing_series() {
    let prices = golden_series();
    assert!(detect_golden_cross(&prices));
    assert!(!detect_death_cross(&prices));
}

#[test]
fn death_cross_fires_on_crossing_series() {
    let prices = death_series();
    assert!(detect_death_cross(&prices));
    assert!(!detect_golden_cross(&prices));
}

#[test]
fn crosses_are_mutually_exclusive() {
    let cases: Vec<Vec<i128>> = vec![
        golden_series(),
        death_series(),
        vec![SCALE; 201],
        vec![SCALE; 10],
    ];
    for prices in cases {
        let g = detect_golden_cross(&prices);
        let d = detect_death_cross(&prices);
        assert!(!(g && d));
    }
}
