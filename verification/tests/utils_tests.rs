// Utility scenarios: trend classification, CAGR, percentage change and
// volume spikes.

use finmetrics::calculate_cagr;
use finmetrics::calculate_pct_change;
use finmetrics::detect_trend;
use finmetrics::detect_volume_spike;
use finmetrics::SCALE;

#[test]
fn trend_short_series_is_stable() {
    let empty: Vec<i128> = vec![];
    assert_eq!(detect_trend(&empty), "stable");
    let one: Vec<i128> = vec![5 * SCALE];
    assert_eq!(detect_trend(&one), "stable");
}

#[test]
fn trend_step_up_is_increasing() {
    let values: Vec<i128> = vec![
        SCALE,
        SCALE,
        SCALE,
        SCALE,
        10 * SCALE,
        10 * SCALE,
        10 * SCALE,
        10 * SCALE,
    ];
    assert_eq!(detect_trend(&values), "increasing");
}

#[test]
fn trend_step_down_is_decreasing() {
    let values: Vec<i128> = vec![
        10 * SCALE,
        10 * SCALE,
        10 * SCALE,
        10 * SCALE,
        SCALE,
        SCALE,
        SCALE,
        SCALE,
    ];
    assert_eq!(detect_trend(&values), "decreasing");
}

#[test]
fn trend_flat_series_is_stable() {
    let values: Vec<i128> = vec![5 * SCALE, 5 * SCALE, 5 * SCALE, 5 * SCALE];
    assert_eq!(detect_trend(&values), "stable");
}

#[test]
fn trend_within_five_percent_is_stable() {
    // Second half 4% above the first: inside the threshold.
    let values: Vec<i128> = vec![100 * SCALE, 100 * SCALE, 104 * SCALE, 104 * SCALE];
    assert_eq!(detect_trend(&values), "stable");
}

#[test]
fn cagr_degenerate_inputs_give_zero() {
    assert_eq!(calculate_cagr(0, 200 * SCALE, 1), 0);
    assert_eq!(calculate_cagr(-SCALE, 200 * SCALE, 1), 0);
    assert_eq!(calculate_cagr(100 * SCALE, 200 * SCALE, 0), 0);
    assert_eq!(calculate_cagr(100 * SCALE, 200 * SCALE, -3), 0);
    assert_eq!(calculate_cagr(100 * SCALE, -200 * SCALE, 2), 0);
}

#[test]
fn cagr_doubling_in_one_year_is_one() {
    assert_eq!(calculate_cagr(100 * SCALE, 200 * SCALE, 1), SCALE);
}

#[test]
fn cagr_quadrupling_in_two_years_is_one() {
    assert_eq!(calculate_cagr(100 * SCALE, 400 * SCALE, 2), SCALE);
}

#[test]
fn cagr_halving_in_one_year_is_minus_half() {
    assert_eq!(calculate_cagr(200 * SCALE, 100 * SCALE, 1), -500_000);
}

#[test]
fn pct_change_zero_old_value_is_zero() {
    assert_eq!(calculate_pct_change(0, 110 * SCALE), 0);
    assert_eq!(calculate_pct_change(0, -3 * SCALE), 0);
    assert_eq!(calculate_pct_change(0, 0), 0);
}

#[test]
fn pct_change_ten_percent() {
    assert_eq!(calculate_pct_change(100 * SCALE, 110 * SCALE), 10 * SCALE);
}

#[test]
fn pct_change_negative_base() {
    // From -100.0 to -50.0 is a -50% change.
    assert_eq!(
        calculate_pct_change(-100 * SCALE, -50 * SCALE),
        -50 * SCALE
    );
}

#[test]
fn volume_spike_strictly_above_threshold() {
    assert!(detect_volume_spike(151 * SCALE, 100 * SCALE));
}

#[test]
fn volume_spike_exactly_at_threshold_is_false() {
    assert!(!detect_volume_spike(150 * SCALE, 100 * SCALE));
}

#[test]
fn volume_spike_zero_volumes_is_false() {
    assert!(!detect_volume_spike(0, 0));
}
