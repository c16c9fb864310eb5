//! Financial time-series metrics over fixed-point values.
//!
//! Every quantity is a scaled integer: `SCALE` raw units stand for 1.0, so
//! prices, returns and results are exact integers and every formula in this
//! crate carries a contract that pins the computed value down.
//!
//! - `risk`: volatility, Sharpe ratio, 95% value-at-risk, maximum drawdown, beta
//! - `technicals`: SMA, EMA, RSI, MACD, golden/death cross detection
//! - `utils`: trend classification, CAGR, percentage change, volume spikes

pub mod fixnum;
pub mod risk;
pub mod technicals;
pub mod utils;

pub use fixnum::MAX_LEN;
pub use fixnum::MAX_RAW;
pub use fixnum::SCALE;
pub use risk::calculate_volatility;
pub use risk::calculate_sharpe_ratio;
pub use risk::calculate_var_95;
pub use risk::calculate_max_drawdown;
pub use risk::calculate_beta;
pub use technicals::calculate_sma;
pub use technicals::calculate_ema;
pub use technicals::calculate_rsi;
pub use technicals::calculate_macd;
pub use technicals::detect_golden_cross;
pub use technicals::detect_death_cross;
pub use utils::detect_trend;
pub use utils::calculate_cagr;
pub use utils::calculate_pct_change;
pub use utils::detect_volume_spike;
